use vstd::prelude::*;

use crate::error::{ErrorKind, ParseError};
use crate::literal::unescape;
use crate::parser::{
    document, error_at_end, item_end, items_at, member_at, member_end, members_at, token_text,
    value_at,
};
use crate::tokenizer::{is_space_byte, lemma_next_lexed, next_lexed, skip_spaces};
use crate::value::Json;

verus! {

proof fn lemma_skip_blank(b: Seq<u8>, p: int)
    requires
        0 <= p <= b.len(),
        forall|i: int| 0 <= i < b.len() ==> is_space_byte(#[trigger] b[i]),
    ensures
        skip_spaces(b, p) == b.len(),
    decreases b.len() - p,
{
    if p < b.len() {
        lemma_skip_blank(b, p + 1);
    }
}

/// Input made of whitespace alone, or empty, fails with
/// `UnexpectedEndOfInput`, at no position.
pub proof fn lemma_blank_input(b: Seq<u8>)
    requires
        forall|i: int| 0 <= i < b.len() ==> is_space_byte(#[trigger] b[i]),
    ensures
        document(b) == Err::<Json, ParseError>(error_at_end(ErrorKind::UnexpectedEndOfInput)),
{
    lemma_skip_blank(b, 0);
}

/// Two results agree up to the nesting limit: they are equal, or the first
/// is the failure `NestingTooDeep`.
pub open spec fn agrees_below_limit(
    r1: Result<(Json, int), ParseError>,
    r2: Result<(Json, int), ParseError>,
) -> bool {
    r1 == r2 || (r1 matches Err(e) && e.kind is NestingTooDeep)
}

/// The nesting limit never changes what is parsed: with room for `r1`
/// levels, a value parses as it does with room for any `r2 >= r1` levels,
/// or fails with `NestingTooDeep`.
pub proof fn lemma_limit_only_cuts(b: Seq<u8>, p: int, r1: nat, r2: nat)
    requires
        0 <= p <= b.len(),
        r1 <= r2,
    ensures
        agrees_below_limit(value_at(b, p, r1), value_at(b, p, r2)),
    decreases b.len() - p, 0int,
{
    lemma_next_lexed(b, p);
    if let Some(x) = next_lexed(b, p) {
        if r1 > 0 {
            let s1 = (r1 - 1) as nat;
            let s2 = (r2 - 1) as nat;
            lemma_items_limit(b, x.end, s1, s2, Seq::empty());
            lemma_members_limit(b, x.end, s1, s2, Map::empty());
        }
    }
}

proof fn lemma_items_limit(b: Seq<u8>, p: int, r1: nat, r2: nat, items: Seq<Json>)
    requires
        0 <= p <= b.len(),
        r1 <= r2,
    ensures
        agrees_below_limit(items_at(b, p, r1, items), items_at(b, p, r2, items)),
    decreases b.len() - p, 2int,
{
    lemma_next_lexed(b, p);
    if let Some(x) = next_lexed(b, p) {
        if !(x.kind is RightBracket) {
            lemma_limit_only_cuts(b, p, r1, r2);
            if let Ok((v, q)) = value_at(b, p, r1) {
                if p < q <= b.len() {
                    lemma_item_end_limit(b, q, r1, r2, items.push(v));
                }
            }
        }
    }
}

proof fn lemma_item_end_limit(b: Seq<u8>, q: int, r1: nat, r2: nat, items: Seq<Json>)
    requires
        0 <= q <= b.len(),
        r1 <= r2,
    ensures
        agrees_below_limit(item_end(b, q, r1, items), item_end(b, q, r2, items)),
    decreases b.len() - q, 3int,
{
    lemma_next_lexed(b, q);
    if let Some(y) = next_lexed(b, q) {
        if y.kind is Comma {
            lemma_items_limit(b, y.end, r1, r2, items);
        }
    }
}

proof fn lemma_members_limit(
    b: Seq<u8>,
    p: int,
    r1: nat,
    r2: nat,
    fields: Map<Seq<char>, Json>,
)
    requires
        0 <= p <= b.len(),
        r1 <= r2,
    ensures
        agrees_below_limit(members_at(b, p, r1, fields), members_at(b, p, r2, fields)),
    decreases b.len() - p, 2int,
{
    lemma_next_lexed(b, p);
    if let Some(x) = next_lexed(b, p) {
        if let Ok(key) = unescape(token_text(b, x)) {
            lemma_member_limit(b, x.end, r1, r2, fields, key);
        }
    }
}

proof fn lemma_member_limit(
    b: Seq<u8>,
    k: int,
    r1: nat,
    r2: nat,
    fields: Map<Seq<char>, Json>,
    key: Seq<char>,
)
    requires
        0 <= k <= b.len(),
        r1 <= r2,
    ensures
        agrees_below_limit(member_at(b, k, r1, fields, key), member_at(b, k, r2, fields, key)),
    decreases b.len() - k, 3int,
{
    lemma_next_lexed(b, k);
    if let Some(c) = next_lexed(b, k) {
        if c.kind is Colon {
            lemma_limit_only_cuts(b, c.end, r1, r2);
            if let Ok((v, q)) = value_at(b, c.end, r1) {
                if c.end < q <= b.len() {
                    lemma_member_end_limit(b, q, r1, r2, fields.insert(key, v));
                }
            }
        }
    }
}

proof fn lemma_member_end_limit(
    b: Seq<u8>,
    q: int,
    r1: nat,
    r2: nat,
    fields: Map<Seq<char>, Json>,
)
    requires
        0 <= q <= b.len(),
        r1 <= r2,
    ensures
        agrees_below_limit(member_end(b, q, r1, fields), member_end(b, q, r2, fields)),
    decreases b.len() - q, 3int,
{
    lemma_next_lexed(b, q);
    if let Some(y) = next_lexed(b, q) {
        if y.kind is Comma {
            lemma_members_limit(b, y.end, r1, r2, fields);
        }
    }
}

} // verus!
