use vstd::prelude::*;
use vstd::string::StringSliceAdditionalSpecFns;
use vstd::utf8::*;

verus! {

/// The mathematical value of a JSON document. A number is kept as the text
/// it was written with; an object maps each key to one value.
pub ghost enum Json {
    Str(Seq<char>),
    Num(Seq<char>),
    Bool(bool),
    Null,
    Array(Seq<Json>),
    Object(Map<Seq<char>, Json>),
}

/// A parsed JSON value.
///
/// A number holds its source text: an optional `-`, digits with at most one
/// `.` among them, and an optional exponent (see `is_float_text`).
/// `as_number` hands it out, and `str::parse::<f64>` turns it into a float.
pub enum JsonNode {
    String(String),
    Number(String),
    Array(Vec<JsonNode>),
    Object(JsonObject),
    Bool(bool),
    Null,
}

/// The members of a JSON object, a key mapped to a value. Inserting a key
/// that is present replaces its value.
pub struct JsonObject {
    entries: Vec<(String, JsonNode)>,
}

impl View for JsonNode {
    type V = Json;

    open spec fn view(&self) -> Json
        decreases self,
    {
        match self {
            JsonNode::String(s) => Json::Str(s@),
            JsonNode::Number(s) => Json::Num(s@),
            JsonNode::Array(v) => Json::Array(nodes_view(v@)),
            JsonNode::Object(o) => Json::Object(o.view()),
            JsonNode::Bool(b) => Json::Bool(*b),
            JsonNode::Null => Json::Null,
        }
    }
}

/// The values of a sequence of nodes, in order.
pub open spec fn nodes_view(s: Seq<JsonNode>) -> Seq<Json>
    decreases s,
{
    if s.len() == 0 {
        Seq::empty()
    } else {
        nodes_view(s.drop_last()).push(s.last().view())
    }
}

/// The map that a sequence of members gives, a later member of a key
/// replacing an earlier one.
pub closed spec fn entries_view(s: Seq<(String, JsonNode)>) -> Map<Seq<char>, Json>
    decreases s,
{
    if s.len() == 0 {
        Map::empty()
    } else {
        entries_view(s.drop_last()).insert(s.last().0@, s.last().1.view())
    }
}

pub proof fn lemma_nodes_view(s: Seq<JsonNode>)
    ensures
        nodes_view(s).len() == s.len(),
        forall|i: int| 0 <= i < s.len() ==> #[trigger] nodes_view(s)[i] == s[i]@,
    decreases s.len(),
{
    if s.len() > 0 {
        assert(nodes_view(s) == nodes_view(s.drop_last()).push(s.last()@));
        lemma_nodes_view(s.drop_last());
    }
}

pub proof fn lemma_nodes_view_push(s: Seq<JsonNode>, n: JsonNode)
    ensures
        nodes_view(s.push(n)) == nodes_view(s).push(n@),
{
    assert(s.push(n).drop_last() =~= s);
}

proof fn lemma_entries_last(s: Seq<(String, JsonNode)>, k: Seq<char>, i: int)
    requires
        0 <= i < s.len(),
        s[i].0@ == k,
        forall|j: int| i < j < s.len() ==> (#[trigger] s[j]).0@ != k,
    ensures
        entries_view(s).contains_key(k),
        entries_view(s)[k] == s[i].1@,
    decreases s.len(),
{
    assert(entries_view(s) == entries_view(s.drop_last()).insert(s.last().0@, s.last().1@));
    if i < s.len() - 1 {
        assert(s.last() == s[s.len() - 1]);
        lemma_entries_last(s.drop_last(), k, i);
    }
}

proof fn lemma_entries_absent(s: Seq<(String, JsonNode)>, k: Seq<char>)
    requires
        forall|j: int| 0 <= j < s.len() ==> (#[trigger] s[j]).0@ != k,
    ensures
        !entries_view(s).contains_key(k),
    decreases s.len(),
{
    if s.len() > 0 {
        assert(entries_view(s) == entries_view(s.drop_last()).insert(s.last().0@, s.last().1@));
        assert(s.last() == s[s.len() - 1]);
        lemma_entries_absent(s.drop_last(), k);
    }
}

proof fn lemma_entries_update(s: Seq<(String, JsonNode)>, i: int, e: (String, JsonNode))
    requires
        0 <= i < s.len(),
        s[i].0@ == e.0@,
        forall|j: int| i < j < s.len() ==> (#[trigger] s[j]).0@ != e.0@,
    ensures
        entries_view(s.update(i, e)) == entries_view(s).insert(e.0@, e.1@),
    decreases s.len(),
{
    let t = s.update(i, e);
    assert(entries_view(s) == entries_view(s.drop_last()).insert(s.last().0@, s.last().1@));
    assert(entries_view(t) == entries_view(t.drop_last()).insert(t.last().0@, t.last().1@));
    if i == s.len() - 1 {
        assert(t.drop_last() =~= s.drop_last());
        assert(entries_view(t) =~= entries_view(s).insert(e.0@, e.1@));
    } else {
        lemma_entries_update(s.drop_last(), i, e);
        assert(t.drop_last() =~= s.drop_last().update(i, e));
        assert(entries_view(t) =~= entries_view(s).insert(e.0@, e.1@));
    }
}

/// Whether two texts hold the same characters, compared byte by byte.
pub(crate) fn same_text(a: &str, b: &str) -> (r: bool)
    ensures
        r == (a@ == b@),
{
    let x = a.as_bytes();
    let y = b.as_bytes();
    proof {
        encode_utf8_decode_utf8(a@);
        encode_utf8_decode_utf8(b@);
    }
    if x.len() != y.len() {
        return false;
    }
    let mut i: usize = 0;
    while i < x.len()
        invariant
            x@.len() == y@.len(),
            x@ == a.spec_bytes(),
            y@ == b.spec_bytes(),
            i <= x@.len(),
            forall|j: int| 0 <= j < i ==> x@[j] == y@[j],
        decreases x@.len() - i,
    {
        if x[i] != y[i] {
            return false;
        }
        i = i + 1;
    }
    proof {
        assert(x@ =~= y@);
    }
    true
}

impl JsonObject {
    pub closed spec fn view(&self) -> Map<Seq<char>, Json>
        decreases self,
    {
        entries_view(self.entries@)
    }

    pub fn new() -> (r: JsonObject)
        ensures
            r@ == Map::<Seq<char>, Json>::empty(),
    {
        JsonObject { entries: Vec::new() }
    }

    /// Maps `key` to `value`, replacing what the key held before.
    pub fn insert(&mut self, key: String, value: JsonNode)
        ensures
            final(self)@ == old(self)@.insert(key@, value@),
    {
        let mut i = self.entries.len();
        while i > 0
            invariant
                i <= self.entries@.len(),
                self.entries == old(self).entries,
                forall|j: int| i <= j < self.entries@.len() ==> (#[trigger] self.entries@[j]).0@ != key@,
            decreases i,
        {
            i = i - 1;
            if same_text(self.entries[i].0.as_str(), key.as_str()) {
                proof {
                    lemma_entries_update(self.entries@, i as int, (key, value));
                }
                self.entries.set(i, (key, value));
                return;
            }
        }
        proof {
            assert(self.entries@.push((key, value)).drop_last() =~= self.entries@);
        }
        self.entries.push((key, value));
    }

    /// The value of `key`, if the object has that key.
    pub fn get(&self, key: &str) -> (r: Option<&JsonNode>)
        ensures
            r is Some <==> self@.contains_key(key@),
            r matches Some(v) ==> self@[key@] == v@,
    {
        let mut i = self.entries.len();
        while i > 0
            invariant
                i <= self.entries@.len(),
                forall|j: int| i <= j < self.entries@.len() ==> (#[trigger] self.entries@[j]).0@ != key@,
            decreases i,
        {
            i = i - 1;
            if same_text(self.entries[i].0.as_str(), key) {
                proof {
                    lemma_entries_last(self.entries@, key@, i as int);
                }
                return Some(&self.entries[i].1);
            }
        }
        proof {
            lemma_entries_absent(self.entries@, key@);
        }
        None
    }
}

impl JsonNode {
    pub fn as_string(&self) -> (r: Option<&String>)
        ensures
            r is Some <==> self@ is Str,
            r matches Some(s) ==> self@ == Json::Str(s@),
    {
        match self {
            JsonNode::String(s) => Some(s),
            _ => None,
        }
    }

    /// The text of a number: an optional `-`, digits with at most one `.`
    /// among them, and an optional exponent.
    pub fn as_number(&self) -> (r: Option<&String>)
        ensures
            r is Some <==> self@ is Num,
            r matches Some(s) ==> self@ == Json::Num(s@),
    {
        match self {
            JsonNode::Number(n) => Some(n),
            _ => None,
        }
    }

    pub fn as_bool(&self) -> (r: Option<&bool>)
        ensures
            r is Some <==> self@ is Bool,
            r matches Some(b) ==> self@ == Json::Bool(*b),
    {
        match self {
            JsonNode::Bool(b) => Some(b),
            _ => None,
        }
    }

    pub fn as_vec(&self) -> (r: Option<&Vec<JsonNode>>)
        ensures
            r is Some <==> self@ is Array,
            r matches Some(v) ==> self@ == Json::Array(nodes_view(v@)),
    {
        match self {
            JsonNode::Array(v) => Some(v),
            _ => None,
        }
    }

    pub fn as_map(&self) -> (r: Option<&JsonObject>)
        ensures
            r is Some <==> self@ is Object,
            r matches Some(o) ==> self@ == Json::Object(o@),
    {
        match self {
            JsonNode::Object(o) => Some(o),
            _ => None,
        }
    }

    pub fn is_null(&self) -> (r: bool)
        ensures
            r == (self@ is Null),
    {
        match self {
            JsonNode::Null => true,
            _ => false,
        }
    }
}

} // verus!
