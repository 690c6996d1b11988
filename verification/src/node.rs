use vstd::prelude::*;

verus! {

/// Mathematical model of a parsed value: dictionaries are maps from key
/// text to value, arrays are sequences, scalars carry their plain content.
/// A float carries the literal text it was written with.
pub enum Value {
    String(Seq<char>),
    Integer(int),
    Float(Seq<char>),
    Bool(bool),
    Array(Seq<Value>),
    Dict(Map<Seq<char>, Value>),
    Null,
}

/// A parsed value: a scalar, an ordered array, or a dictionary held as a
/// sequence of key-value entries with unique keys. A float holds the
/// literal text it was written with; what number that text names is left
/// to the display layer.
#[derive(Debug, PartialEq)]
pub enum Node {
    String(String),
    Integer(i64),
    Float(String),
    Bool(bool),
    Array(Vec<Node>),
    Dict(Vec<(String, Node)>),
    Null,
}

impl Node {
    /// The model of this node.
    pub open spec fn view(self) -> Value
        decreases self,
    {
        match self {
            Node::String(s) => Value::String(s@),
            Node::Integer(i) => Value::Integer(i as int),
            Node::Float(t) => Value::Float(t@),
            Node::Bool(b) => Value::Bool(b),
            Node::Array(v) => Value::Array(nodes_view(v@)),
            Node::Dict(d) => Value::Dict(entries_view(d@)),
            Node::Null => Value::Null,
        }
    }

    /// Well-formed: every dictionary in the tree has unique keys.
    pub open spec fn wf(self) -> bool
        decreases self,
    {
        match self {
            Node::Array(v) => nodes_wf(v@),
            Node::Dict(d) => keys_unique(d@) && entries_wf(d@),
            _ => true,
        }
    }
}

/// The models of a sequence of nodes.
pub open spec fn nodes_view(s: Seq<Node>) -> Seq<Value>
    decreases s,
{
    if s.len() == 0 {
        Seq::empty()
    } else {
        seq![s[0].view()] + nodes_view(s.skip(1))
    }
}

/// The model of a sequence of dictionary entries: a map, later entries
/// overriding earlier ones of the same key.
pub open spec fn entries_view(s: Seq<(String, Node)>) -> Map<Seq<char>, Value>
    decreases s,
{
    if s.len() == 0 {
        Map::empty()
    } else {
        entries_view(s.drop_last()).insert(s.last().0@, s.last().1.view())
    }
}

/// No two entries share a key.
pub open spec fn keys_unique(s: Seq<(String, Node)>) -> bool {
    forall|i: int, j: int| 0 <= i < j < s.len() ==> (#[trigger] s[i]).0@ != (#[trigger] s[j]).0@
}

/// Every node of the sequence is well-formed.
pub open spec fn nodes_wf(s: Seq<Node>) -> bool
    decreases s,
{
    if s.len() == 0 {
        true
    } else {
        s[0].wf() && nodes_wf(s.skip(1))
    }
}

/// Every value of the entry sequence is well-formed.
pub open spec fn entries_wf(s: Seq<(String, Node)>) -> bool
    decreases s,
{
    if s.len() == 0 {
        true
    } else {
        s.last().1.wf() && entries_wf(s.drop_last())
    }
}

pub proof fn lemma_nodes_view_index(s: Seq<Node>)
    ensures
        nodes_view(s).len() == s.len(),
        forall|k: int| 0 <= k < s.len() ==> nodes_view(s)[k] == (#[trigger] s[k]).view(),
    decreases s.len(),
{
    if s.len() > 0 {
        lemma_nodes_view_index(s.skip(1));
        assert forall|k: int| 0 <= k < s.len() implies nodes_view(s)[k] == (
        #[trigger] s[k]).view() by {
            if k > 0 {
                assert(s.skip(1)[k - 1] == s[k]);
                assert(nodes_view(s)[k] == nodes_view(s.skip(1))[k - 1]);
            }
        }
    }
}

pub proof fn lemma_nodes_wf_index(s: Seq<Node>)
    ensures
        nodes_wf(s) <==> (forall|k: int| 0 <= k < s.len() ==> (#[trigger] s[k]).wf()),
    decreases s.len(),
{
    if s.len() > 0 {
        lemma_nodes_wf_index(s.skip(1));
        assert(forall|k: int| 0 < k < s.len() ==> s.skip(1)[k - 1] == (#[trigger] s[k]));
        if forall|k: int| 0 <= k < s.len() ==> (#[trigger] s[k]).wf() {
            assert(s[0].wf());
            assert(forall|k: int| 0 <= k < s.skip(1).len() ==> (#[trigger] s.skip(1)[k]).wf())
                by {
                assert(forall|k: int|
                    0 <= k < s.skip(1).len() ==> s.skip(1)[k] == (#[trigger] s[k + 1]));
            }
        }
    }
}

pub proof fn lemma_entries_wf_index(s: Seq<(String, Node)>)
    ensures
        entries_wf(s) <==> (forall|k: int| 0 <= k < s.len() ==> (#[trigger] s[k]).1.wf()),
    decreases s.len(),
{
    if s.len() > 0 {
        lemma_entries_wf_index(s.drop_last());
        assert(forall|k: int| 0 <= k < s.len() - 1 ==> s.drop_last()[k] == (#[trigger] s[k]));
        if forall|k: int| 0 <= k < s.len() ==> (#[trigger] s[k]).1.wf() {
            assert(s.last().1.wf());
            assert(forall|k: int|
                0 <= k < s.drop_last().len() ==> (#[trigger] s.drop_last()[k]).1.wf()) by {
                assert(forall|k: int|
                    0 <= k < s.drop_last().len() ==> s.drop_last()[k] == (#[trigger] s[k]));
            }
        }
    }
}

/// A key occurs in the model exactly when some entry carries it.
pub proof fn lemma_entries_view_contains(s: Seq<(String, Node)>, k: Seq<char>)
    ensures
        entries_view(s).contains_key(k) <==> (exists|j: int|
            0 <= j < s.len() && (#[trigger] s[j]).0@ == k),
    decreases s.len(),
{
    if s.len() > 0 {
        lemma_entries_view_contains(s.drop_last(), k);
        assert(forall|j: int| 0 <= j < s.len() - 1 ==> s.drop_last()[j] == (#[trigger] s[j]));
        if s.last().0@ == k {
            assert((#[trigger] s[s.len() - 1]).0@ == k);
        } else if entries_view(s).contains_key(k) {
            let j = choose|j: int| 0 <= j < s.len() - 1 && (#[trigger] s.drop_last()[j]).0@ == k;
            assert((#[trigger] s[j]).0@ == k);
        } else {
            if exists|j: int| 0 <= j < s.len() && (#[trigger] s[j]).0@ == k {
                let j = choose|j: int| 0 <= j < s.len() && (#[trigger] s[j]).0@ == k;
                assert(j < s.len() - 1);
                assert(s.drop_last()[j] == s[j]);
            }
        }
    }
}

/// With unique keys, looking an entry's key up in the model gives that
/// entry's value.
pub proof fn lemma_entries_view_lookup(s: Seq<(String, Node)>, j: int)
    requires
        keys_unique(s),
        0 <= j < s.len(),
    ensures
        entries_view(s).contains_key(s[j].0@),
        entries_view(s)[s[j].0@] == s[j].1.view(),
    decreases s.len(),
{
    lemma_entries_view_contains(s, s[j].0@);
    if j == s.len() - 1 {
    } else {
        assert(keys_unique(s.drop_last())) by {
            assert(forall|p: int| 0 <= p < s.len() - 1 ==> s.drop_last()[p] == (#[trigger] s[p]));
        }
        assert(s.drop_last()[j] == s[j]);
        lemma_entries_view_lookup(s.drop_last(), j);
        assert(s[j].0@ != s.last().0@) by {
            assert((#[trigger] s[j]).0@ != (#[trigger] s[s.len() - 1]).0@);
        }
    }
}

/// Replacing the value of the entry at `j`, its key kept, updates the
/// model at that key.
pub proof fn lemma_entries_view_update(s: Seq<(String, Node)>, j: int, k: String, n: Node)
    requires
        keys_unique(s),
        0 <= j < s.len(),
        k@ == s[j].0@,
    ensures
        entries_view(s.update(j, (k, n))) == entries_view(s).insert(k@, n.view()),
    decreases s.len(),
{
    let u = s.update(j, (k, n));
    if j == s.len() - 1 {
        assert(u.drop_last() =~= s.drop_last());
        assert(u.last() == (k, n));
        assert(entries_view(u) == entries_view(s.drop_last()).insert(k@, n.view()));
        assert(entries_view(s.drop_last()).insert(s.last().0@, s.last().1.view()).insert(
            k@,
            n.view(),
        ) =~= entries_view(s.drop_last()).insert(k@, n.view()));
    } else {
        assert(keys_unique(s.drop_last())) by {
            assert(forall|p: int| 0 <= p < s.len() - 1 ==> s.drop_last()[p] == (#[trigger] s[p]));
        }
        assert(s.drop_last()[j] == s[j]);
        lemma_entries_view_update(s.drop_last(), j, k, n);
        assert(u.drop_last() =~= s.drop_last().update(j, (k, n)));
        assert(u.last() == s.last());
        assert(s[j].0@ != s.last().0@) by {
            assert((#[trigger] s[j]).0@ != (#[trigger] s[s.len() - 1]).0@);
        }
        assert(entries_view(u) == entries_view(s.drop_last()).insert(k@, n.view()).insert(
            s.last().0@,
            s.last().1.view(),
        ));
        assert(entries_view(s.drop_last()).insert(k@, n.view()).insert(
            s.last().0@,
            s.last().1.view(),
        ) =~= entries_view(s.drop_last()).insert(s.last().0@, s.last().1.view()).insert(
            k@,
            n.view(),
        ));
    }
}

/// The key texts of a path of segments.
pub open spec fn path_view(p: Seq<String>) -> Seq<Seq<char>> {
    p.map_values(|s: String| s@)
}

/// The freshly built chain for the remaining path: nested one-entry
/// dictionaries around the value, innermost first.
pub open spec fn spec_chain(path: Seq<Seq<char>>, v: Value) -> Value
    decreases path.len(),
{
    if path.len() == 0 {
        v
    } else {
        Value::Dict(Map::empty().insert(path[0], spec_chain(path.skip(1), v)))
    }
}

/// The deep upsert of one scope path: walk the mapping along the path,
/// descending into existing dictionaries; the final segment binds the
/// value, and the first segment that is missing or does not hold a
/// dictionary receives the freshly built remaining chain wholesale.
pub open spec fn spec_merge(m: Map<Seq<char>, Value>, path: Seq<Seq<char>>, v: Value) -> Map<
    Seq<char>,
    Value,
>
    decreases path.len(),
{
    if path.len() == 0 {
        m
    } else if path.len() == 1 {
        m.insert(path[0], v)
    } else if m.contains_key(path[0]) && m[path[0]] is Dict {
        m.insert(path[0], Value::Dict(spec_merge(m[path[0]]->Dict_0, path.skip(1), v)))
    } else {
        m.insert(path[0], spec_chain(path.skip(1), v))
    }
}

/// The mapping inside a nonempty chain: its first segment bound to the
/// chain of the remaining segments.
pub open spec fn chain_map(q: Seq<Seq<char>>, v: Value) -> Map<Seq<char>, Value>
    recommends
        q.len() >= 1,
{
    Map::empty().insert(q[0], spec_chain(q.skip(1), v))
}

proof fn lemma_chain_absorbs(q: Seq<Seq<char>>, v: Value)
    requires
        q.len() >= 1,
    ensures
        spec_merge(chain_map(q, v), q, v) == chain_map(q, v),
    decreases q.len(),
{
    let m = chain_map(q, v);
    if q.len() == 1 {
        assert(m.insert(q[0], v) =~= m) by {
            assert(q.skip(1) =~= Seq::<Seq<char>>::empty());
        }
    } else {
        let q2 = q.skip(1);
        assert(m.contains_key(q[0]));
        assert(m[q[0]] == spec_chain(q2, v));
        assert(spec_chain(q2, v) == Value::Dict(chain_map(q2, v)));
        lemma_chain_absorbs(q2, v);
        assert(spec_merge(m, q, v) == m.insert(
            q[0],
            Value::Dict(spec_merge(chain_map(q2, v), q2, v)),
        ));
        assert(m.insert(q[0], Value::Dict(chain_map(q2, v))) =~= m);
    }
}

/// Law: the scope merge is idempotent. Declaring the same path with the
/// same value twice leaves the tree exactly as one declaration does.
pub proof fn lemma_merge_idempotent(m: Map<Seq<char>, Value>, p: Seq<Seq<char>>, v: Value)
    requires
        p.len() >= 1,
    ensures
        spec_merge(spec_merge(m, p, v), p, v) == spec_merge(m, p, v),
    decreases p.len(),
{
    let m1 = spec_merge(m, p, v);
    if p.len() == 1 {
        assert(m1.insert(p[0], v) =~= m1);
    } else {
        let k = p[0];
        let p2 = p.skip(1);
        if m.contains_key(k) && m[k] is Dict {
            let d = m[k]->Dict_0;
            lemma_merge_idempotent(d, p2, v);
            assert(m1[k] == Value::Dict(spec_merge(d, p2, v)));
            assert(spec_merge(m1, p, v) == m1.insert(
                k,
                Value::Dict(spec_merge(spec_merge(d, p2, v), p2, v)),
            ));
            assert(m1.insert(k, Value::Dict(spec_merge(d, p2, v))) =~= m1);
        } else {
            assert(m1[k] == spec_chain(p2, v));
            assert(spec_chain(p2, v) == Value::Dict(chain_map(p2, v)));
            lemma_chain_absorbs(p2, v);
            assert(spec_merge(m1, p, v) == m1.insert(
                k,
                Value::Dict(spec_merge(chain_map(p2, v), p2, v)),
            ));
            assert(m1.insert(k, Value::Dict(chain_map(p2, v))) =~= m1);
        }
    }
}

proof fn lemma_chain_pair(pre: Seq<Seq<char>>, x: Seq<char>, y: Seq<char>, v1: Value, v2: Value)
    requires
        x != y,
    ensures
        spec_merge(chain_map(pre.push(x), v1), pre.push(y), v2) == spec_merge(
            chain_map(pre.push(y), v2),
            pre.push(x),
            v1,
        ),
    decreases pre.len(),
{
    let q1 = pre.push(x);
    let q2 = pre.push(y);
    if pre.len() == 0 {
        assert(q1[0] == x && q2[0] == y);
        assert(q1.skip(1) =~= Seq::<Seq<char>>::empty());
        assert(q2.skip(1) =~= Seq::<Seq<char>>::empty());
        assert(chain_map(q1, v1) == Map::empty().insert(x, v1));
        assert(chain_map(q2, v2) == Map::empty().insert(y, v2));
        assert(Map::empty().insert(x, v1).insert(y, v2) =~= Map::empty().insert(y, v2).insert(
            x,
            v1,
        ));
    } else {
        let k = pre[0];
        assert(q1[0] == k && q2[0] == k);
        let r1 = q1.skip(1);
        let r2 = q2.skip(1);
        assert(r1 =~= pre.skip(1).push(x));
        assert(r2 =~= pre.skip(1).push(y));
        let c1 = chain_map(q1, v1);
        let c2 = chain_map(q2, v2);
        assert(c1[k] == spec_chain(r1, v1));
        assert(spec_chain(r1, v1) == Value::Dict(chain_map(r1, v1)));
        assert(c2[k] == spec_chain(r2, v2));
        assert(spec_chain(r2, v2) == Value::Dict(chain_map(r2, v2)));
        lemma_chain_pair(pre.skip(1), x, y, v1, v2);
        assert(spec_merge(c1, q2, v2) == c1.insert(
            k,
            Value::Dict(spec_merge(chain_map(r1, v1), r2, v2)),
        ));
        assert(spec_merge(c2, q1, v1) == c2.insert(
            k,
            Value::Dict(spec_merge(chain_map(r2, v2), r1, v1)),
        ));
        assert(c1.insert(k, Value::Dict(spec_merge(chain_map(r1, v1), r2, v2))) =~= c2.insert(
            k,
            Value::Dict(spec_merge(chain_map(r2, v2), r1, v1)),
        ));
    }
}

/// Law: scope declarations of sibling paths commute. Two declarations that
/// share a prefix and end in different final segments give the same tree
/// in either order.
pub proof fn lemma_merge_sibling_commutes(
    m: Map<Seq<char>, Value>,
    pre: Seq<Seq<char>>,
    x: Seq<char>,
    y: Seq<char>,
    v1: Value,
    v2: Value,
)
    requires
        x != y,
    ensures
        spec_merge(spec_merge(m, pre.push(x), v1), pre.push(y), v2) == spec_merge(
            spec_merge(m, pre.push(y), v2),
            pre.push(x),
            v1,
        ),
    decreases pre.len(),
{
    let p1 = pre.push(x);
    let p2 = pre.push(y);
    if pre.len() == 0 {
        assert(m.insert(x, v1).insert(y, v2) =~= m.insert(y, v2).insert(x, v1));
    } else {
        let k = pre[0];
        assert(p1[0] == k && p2[0] == k);
        let r1 = p1.skip(1);
        let r2 = p2.skip(1);
        assert(r1 =~= pre.skip(1).push(x));
        assert(r2 =~= pre.skip(1).push(y));
        if m.contains_key(k) && m[k] is Dict {
            let d = m[k]->Dict_0;
            let m1 = spec_merge(m, p1, v1);
            let m2 = spec_merge(m, p2, v2);
            assert(m1 == m.insert(k, Value::Dict(spec_merge(d, r1, v1))));
            assert(m2 == m.insert(k, Value::Dict(spec_merge(d, r2, v2))));
            lemma_merge_sibling_commutes(d, pre.skip(1), x, y, v1, v2);
            assert(spec_merge(m1, p2, v2) == m1.insert(
                k,
                Value::Dict(spec_merge(spec_merge(d, r1, v1), r2, v2)),
            ));
            assert(spec_merge(m2, p1, v1) == m2.insert(
                k,
                Value::Dict(spec_merge(spec_merge(d, r2, v2), r1, v1)),
            ));
            assert(m1.insert(k, Value::Dict(spec_merge(spec_merge(d, r1, v1), r2, v2)))
                =~= m2.insert(k, Value::Dict(spec_merge(spec_merge(d, r2, v2), r1, v1))));
        } else {
            let m1 = spec_merge(m, p1, v1);
            let m2 = spec_merge(m, p2, v2);
            assert(m1 == m.insert(k, spec_chain(r1, v1)));
            assert(m2 == m.insert(k, spec_chain(r2, v2)));
            assert(spec_chain(r1, v1) == Value::Dict(chain_map(r1, v1)));
            assert(spec_chain(r2, v2) == Value::Dict(chain_map(r2, v2)));
            lemma_chain_pair(pre.skip(1), x, y, v1, v2);
            assert(spec_merge(m1, p2, v2) == m1.insert(
                k,
                Value::Dict(spec_merge(chain_map(r1, v1), r2, v2)),
            ));
            assert(spec_merge(m2, p1, v1) == m2.insert(
                k,
                Value::Dict(spec_merge(chain_map(r2, v2), r1, v1)),
            ));
            assert(m1.insert(k, Value::Dict(spec_merge(chain_map(r1, v1), r2, v2))) =~= m2.insert(
                k,
                Value::Dict(spec_merge(chain_map(r2, v2), r1, v1)),
            ));
        }
    }
}

/// Finds the entry carrying the given key, if any.
fn find_key(entries: &Vec<(String, Node)>, key: &String) -> (r: Option<usize>)
    ensures
        match r {
            Some(j) => j < entries@.len() && entries@[j as int].0@ == key@,
            None => forall|p: int| 0 <= p < entries@.len() ==> (#[trigger] entries@[p]).0@ != key@,
        },
{
    let n = entries.len();
    let mut j: usize = 0;
    while j < n
        invariant
            j <= n,
            n == entries@.len(),
            forall|p: int| 0 <= p < j ==> (#[trigger] entries@[p]).0@ != key@,
        decreases n - j,
    {
        if entries[j].0.eq(key) {
            return Some(j);
        }
        j = j + 1;
    }
    None
}

/// Builds the chain of nested one-entry dictionaries for the path segments
/// from `i` on, the parsed value innermost.
fn build_chain(path: &Vec<String>, i: usize, value: Node) -> (r: Node)
    requires
        i <= path@.len(),
        value.wf(),
    ensures
        r.view() == spec_chain(path_view(path@).skip(i as int), value.view()),
        r.wf(),
    decreases path@.len() - i,
{
    if i == path.len() {
        proof {
            assert(path_view(path@).skip(i as int) =~= Seq::<Seq<char>>::empty());
        }
        value
    } else {
        let inner = build_chain(path, i + 1, value);
        let key = path[i].clone();
        let mut entries: Vec<(String, Node)> = Vec::new();
        entries.push((key, inner));
        proof {
            let pv = path_view(path@).skip(i as int);
            assert(pv[0] == path_view(path@)[i as int]);
            assert(path_view(path@)[i as int] == path@[i as int]@);
            assert(pv.skip(1) =~= path_view(path@).skip(i + 1));
            assert(entries@.drop_last() =~= Seq::<(String, Node)>::empty());
            assert(entries_view(Seq::<(String, Node)>::empty()) =~= Map::empty());
            assert(entries@.last().1 == inner);
            assert(entries@.last().0@ == pv[0]);
            assert(entries_view(entries@) =~= Map::empty().insert(pv[0], inner.view()));
            assert(entries_wf(entries@)) by {
                assert(entries_wf(Seq::<(String, Node)>::empty()));
            }
        }
        Node::Dict(entries)
    }
}

/// A node models a dictionary exactly when it is one.
proof fn lemma_view_variant(n: Node)
    ensures
        (n.view() is Dict) <==> n is Dict,
{
    match n {
        Node::String(_) => {},
        Node::Integer(_) => {},
        Node::Float(_) => {},
        Node::Bool(_) => {},
        Node::Array(_) => {},
        Node::Dict(_) => {},
        Node::Null => {},
    }
}

/// Merges one scope-path declaration into a dictionary, as a deep upsert:
/// descends into existing dictionaries along the path, binds the value at
/// the final segment, and inserts the freshly built remaining chain at the
/// first segment that is missing or does not hold a dictionary.
pub fn merge_entries(
    entries: Vec<(String, Node)>,
    path: &Vec<String>,
    i: usize,
    value: Node,
) -> (r: Vec<(String, Node)>)
    requires
        i < path@.len(),
        keys_unique(entries@),
        entries_wf(entries@),
        value.wf(),
    ensures
        entries_view(r@) == spec_merge(
            entries_view(entries@),
            path_view(path@).skip(i as int),
            value.view(),
        ),
        keys_unique(r@),
        entries_wf(r@),
    decreases path@.len() - i,
{
    let mut entries = entries;
    let ghost s0 = entries@;
    let ghost pv = path_view(path@).skip(i as int);
    proof {
        assert(pv[0] == path_view(path@)[i as int]);
        assert(path_view(path@)[i as int] == path@[i as int]@);
        assert(pv.skip(1) =~= path_view(path@).skip(i + 1));
        lemma_entries_wf_index(s0);
    }
    let plen = path.len();
    let key = &path[i];
    let found = find_key(&entries, key);
    proof {
        lemma_entries_view_contains(s0, key@);
        if found is Some {
            lemma_entries_view_lookup(s0, found->0 as int);
            lemma_view_variant(s0[found->0 as int].1);
        }
    }
    if i + 1 == plen {
        // the final segment binds the value itself
        proof {
            assert(pv.len() == 1);
        }
        match found {
            Some(j) => {
                proof {
                    lemma_entries_view_update(s0, j as int, entries@[j as int].0, value);
                }
                let (k, _old) = entries.remove(j);
                entries.insert(j, (k, value));
                proof {
                    assert(entries@ =~= s0.update(j as int, (s0[j as int].0, value)));
                    assert(keys_unique(entries@)) by {
                        assert(forall|p: int|
                            0 <= p < s0.len() && p != j ==> entries@[p] == (#[trigger] s0[p]));
                        assert(entries@[j as int].0@ == s0[j as int].0@);
                        assert(forall|p: int|
                            0 <= p < entries@.len() ==> (#[trigger] entries@[p]).0@ == s0[p].0@);
                    }
                    lemma_entries_wf_index(entries@);
                    assert(updated_at(s0, entries@, j as int, value));
                }
            },
            None => {
                entries.push((key.clone(), value));
                proof {
                    assert(entries@.drop_last() =~= s0);
                    assert(entries_view(entries@) == entries_view(s0).insert(
                        entries@.last().0@,
                        entries@.last().1.view(),
                    ));
                    assert(keys_unique(entries@)) by {
                        assert(forall|p: int|
                            0 <= p < s0.len() ==> entries@[p] == (#[trigger] s0[p]));
                        assert(entries@[s0.len() as int].0@ == key@);
                    }
                    lemma_entries_wf_index(entries@);
                    assert(forall|p: int| 0 <= p < s0.len() ==> entries@[p] == (#[trigger] s0[p]));
                }
            },
        }
        return entries;
    }
    // an intermediate segment: descend or insert the rest as a chain
    let descend = match found {
        Some(j) => matches!(entries[j].1, Node::Dict(_)),
        None => false,
    };
    if descend {
        let j = match found {
            Some(j) => j,
            None => 0,
        };
        proof {
            lemma_entries_view_lookup(s0, j as int);
        }
        let (k, node) = entries.remove(j);
        match node {
            Node::Dict(inner) => {
                proof {
                    assert(inner@ == s0[j as int].1->Dict_0@);
                    assert(s0[j as int].1.view() == Value::Dict(entries_view(inner@)));
                }
                let merged = merge_entries(inner, path, i + 1, value);
                let new_node = Node::Dict(merged);
                proof {
                    lemma_entries_view_update(s0, j as int, s0[j as int].0, new_node);
                }
                entries.insert(j, (k, new_node));
                proof {
                    assert(entries@ =~= s0.update(j as int, (s0[j as int].0, new_node)));
                    assert(keys_unique(entries@)) by {
                        assert(forall|p: int|
                            0 <= p < entries@.len() ==> (#[trigger] entries@[p]).0@ == s0[p].0@);
                    }
                    lemma_entries_wf_index(entries@);
                    assert(updated_at(s0, entries@, j as int, new_node));
                }
            },
            _ => {
                proof {
                    assert(false);
                }
            },
        }
    } else {
        let chain = build_chain(path, i + 1, value);
        match found {
            Some(j) => {
                proof {
                    lemma_entries_view_lookup(s0, j as int);
                    lemma_entries_view_update(s0, j as int, s0[j as int].0, chain);
                }
                let (k, _old) = entries.remove(j);
                entries.insert(j, (k, chain));
                proof {
                    assert(entries@ =~= s0.update(j as int, (s0[j as int].0, chain)));
                    assert(keys_unique(entries@)) by {
                        assert(forall|p: int|
                            0 <= p < entries@.len() ==> (#[trigger] entries@[p]).0@ == s0[p].0@);
                    }
                    lemma_entries_wf_index(entries@);
                    assert(updated_at(s0, entries@, j as int, chain));
                }
            },
            None => {
                entries.push((key.clone(), chain));
                proof {
                    assert(entries@.drop_last() =~= s0);
                    assert(entries_view(entries@) == entries_view(s0).insert(
                        entries@.last().0@,
                        entries@.last().1.view(),
                    ));
                    assert(keys_unique(entries@)) by {
                        assert(forall|p: int|
                            0 <= p < s0.len() ==> entries@[p] == (#[trigger] s0[p]));
                        assert(entries@[s0.len() as int].0@ == key@);
                    }
                    lemma_entries_wf_index(entries@);
                    assert(forall|p: int| 0 <= p < s0.len() ==> entries@[p] == (#[trigger] s0[p]));
                }
            },
        }
    }
    entries
}

/// The entries after replacing the value at `j`, seen pointwise.
spec fn updated_at(
    s0: Seq<(String, Node)>,
    s1: Seq<(String, Node)>,
    j: int,
    n: Node,
) -> bool {
    forall|p: int| 0 <= p < s1.len() ==> (#[trigger] s1[p]) == if p == j {
        (s0[j].0, n)
    } else {
        s0[p]
    }
}

pub proof fn lemma_nodes_view_push(s: Seq<Node>, n: Node)
    ensures
        nodes_view(s.push(n)) == nodes_view(s).push(n.view()),
{
    lemma_nodes_view_index(s);
    lemma_nodes_view_index(s.push(n));
    assert(nodes_view(s.push(n)) =~= nodes_view(s).push(n.view())) by {
        assert forall|k: int| 0 <= k < s.len() + 1 implies nodes_view(s.push(n))[k]
            == nodes_view(s).push(n.view())[k] by {
            if k < s.len() {
                assert(s.push(n)[k] == s[k]);
            } else {
                assert(s.push(n)[k] == n);
            }
        }
    }
}

/// Inserts or overwrites one entry of a dictionary, keeping keys unique.
pub fn insert_entry(entries: Vec<(String, Node)>, key: &String, value: Node) -> (r: Vec<
    (String, Node),
>)
    requires
        keys_unique(entries@),
        entries_wf(entries@),
        value.wf(),
    ensures
        entries_view(r@) == entries_view(entries@).insert(key@, value.view()),
        keys_unique(r@),
        entries_wf(r@),
{
    let mut entries = entries;
    let ghost s0 = entries@;
    proof {
        lemma_entries_wf_index(s0);
    }
    let found = find_key(&entries, key);
    match found {
        Some(j) => {
            proof {
                lemma_entries_view_update(s0, j as int, s0[j as int].0, value);
            }
            let (k, _old) = entries.remove(j);
            entries.insert(j, (k, value));
            proof {
                assert(entries@ =~= s0.update(j as int, (s0[j as int].0, value)));
                assert(keys_unique(entries@)) by {
                    assert(forall|p: int|
                        0 <= p < entries@.len() ==> (#[trigger] entries@[p]).0@ == s0[p].0@);
                }
                lemma_entries_wf_index(entries@);
                assert(updated_at(s0, entries@, j as int, value));
            }
        },
        None => {
            entries.push((key.clone(), value));
            proof {
                assert(entries@.drop_last() =~= s0);
                assert(entries_view(entries@) == entries_view(s0).insert(
                    entries@.last().0@,
                    entries@.last().1.view(),
                ));
                assert(keys_unique(entries@)) by {
                    assert(forall|p: int| 0 <= p < s0.len() ==> entries@[p] == (#[trigger] s0[p]));
                    assert(entries@[s0.len() as int].0@ == key@);
                }
                lemma_entries_wf_index(entries@);
                assert(forall|p: int| 0 <= p < s0.len() ==> entries@[p] == (#[trigger] s0[p]));
            }
        },
    }
    entries
}

impl Node {
    /// Whether two well-formed nodes stand for the same value: structural
    /// and variant-sensitive, with dictionary entry order irrelevant.
    pub fn equivalent(&self, other: &Node) -> (r: bool)
        requires
            self.wf(),
            other.wf(),
        ensures
            r == (self.view() == other.view()),
        decreases *self,
    {
        match (self, other) {
            (Node::String(a), Node::String(b)) => a.eq(b),
            (Node::Integer(a), Node::Integer(b)) => *a == *b,
            (Node::Float(a), Node::Float(b)) => a.eq(b),
            (Node::Bool(a), Node::Bool(b)) => *a == *b,
            (Node::Null, Node::Null) => true,
            (Node::Array(u), Node::Array(w)) => {
                proof {
                    lemma_nodes_view_index(u@);
                    lemma_nodes_view_index(w@);
                    lemma_nodes_wf_index(u@);
                    lemma_nodes_wf_index(w@);
                }
                if u.len() != w.len() {
                    proof {
                        assert(nodes_view(u@).len() != nodes_view(w@).len());
                    }
                    return false;
                }
                let mut i: usize = 0;
                while i < u.len()
                    invariant
                        i <= u@.len(),
                        u@.len() == w@.len(),
                        *self == Node::Array(*u),
                        self.wf(),
                        other == Node::Array(*w),
                        other.wf(),
                        forall|p: int| 0 <= p < u@.len() ==> (#[trigger] u@[p]).wf(),
                        forall|p: int| 0 <= p < w@.len() ==> (#[trigger] w@[p]).wf(),
                        forall|p: int|
                            0 <= p < i ==> nodes_view(u@)[p] == (#[trigger] nodes_view(w@)[p]),
                        forall|p: int| 0 <= p < u@.len() ==> nodes_view(u@)[p] == (
                        #[trigger] u@[p]).view(),
                        forall|p: int| 0 <= p < w@.len() ==> nodes_view(w@)[p] == (
                        #[trigger] w@[p]).view(),
                    decreases u@.len() - i,
                {
                    if !u[i].equivalent(&w[i]) {
                        proof {
                            assert(nodes_view(u@)[i as int] != nodes_view(w@)[i as int]);
                        }
                        return false;
                    }
                    i = i + 1;
                }
                proof {
                    assert(nodes_view(u@) =~= nodes_view(w@));
                }
                true
            },
            (Node::Dict(d1), Node::Dict(d2)) => entries_equivalent(d1, d2),
            _ => {
                proof {
                    lemma_view_variants_differ(*self, *other);
                }
                false
            },
        }
    }
}

/// Whether two well-formed entry sequences model the same mapping.
pub fn entries_equivalent(d1: &Vec<(String, Node)>, d2: &Vec<(String, Node)>) -> (r: bool)
    requires
        keys_unique(d1@),
        entries_wf(d1@),
        keys_unique(d2@),
        entries_wf(d2@),
    ensures
        r == (entries_view(d1@) == entries_view(d2@)),
    decreases *d1,
{
    proof {
        lemma_entries_wf_index(d1@);
        lemma_entries_wf_index(d2@);
    }
    let mut i: usize = 0;
    while i < d1.len()
        invariant
            i <= d1@.len(),
            keys_unique(d1@),
            entries_wf(d1@),
            keys_unique(d2@),
            entries_wf(d2@),
            forall|p: int| 0 <= p < d1@.len() ==> (#[trigger] d1@[p]).1.wf(),
            forall|p: int| 0 <= p < d2@.len() ==> (#[trigger] d2@[p]).1.wf(),
            forall|p: int|
                0 <= p < i ==> entries_view(d2@).contains_key(
                    (#[trigger] d1@[p]).0@,
                ) && entries_view(d2@)[d1@[p].0@] == entries_view(d1@)[d1@[p].0@],
        decreases d1@.len() - i,
    {
        let found = find_key(d2, &d1[i].0);
        match found {
            Some(j) => {
                proof {
                    lemma_entries_view_lookup(d1@, i as int);
                    lemma_entries_view_lookup(d2@, j as int);
                }
                if !d1[i].1.equivalent(&d2[j].1) {
                    proof {
                        assert(entries_view(d1@)[d1@[i as int].0@] != entries_view(
                            d2@,
                        )[d1@[i as int].0@]);
                    }
                    return false;
                }
            },
            None => {
                proof {
                    lemma_entries_view_lookup(d1@, i as int);
                    lemma_entries_view_contains(d2@, d1@[i as int].0@);
                }
                return false;
            },
        }
        i = i + 1;
    }
    let mut j: usize = 0;
    while j < d2.len()
        invariant
            j <= d2@.len(),
            keys_unique(d1@),
            entries_wf(d1@),
            keys_unique(d2@),
            entries_wf(d2@),
            forall|p: int|
                0 <= p < d1@.len() ==> entries_view(d2@).contains_key(
                    (#[trigger] d1@[p]).0@,
                ) && entries_view(d2@)[d1@[p].0@] == entries_view(d1@)[d1@[p].0@],
            forall|p: int|
                0 <= p < j ==> entries_view(d1@).contains_key((#[trigger] d2@[p]).0@),
        decreases d2@.len() - j,
    {
        match find_key(d1, &d2[j].0) {
            Some(_) => {
                proof {
                    lemma_entries_view_contains(d1@, d2@[j as int].0@);
                }
            },
            None => {
                proof {
                    lemma_entries_view_lookup(d2@, j as int);
                    lemma_entries_view_contains(d1@, d2@[j as int].0@);
                }
                return false;
            },
        }
        j = j + 1;
    }
    proof {
        assert(entries_view(d1@) =~= entries_view(d2@)) by {
            assert forall|k: Seq<char>|
                entries_view(d1@).contains_key(k) implies entries_view(
                d2@,
            ).contains_key(k) by {
                lemma_entries_view_contains(d1@, k);
                let p = choose|p: int|
                    0 <= p < d1@.len() && (#[trigger] d1@[p]).0@ == k;
                assert(entries_view(d2@).contains_key(d1@[p].0@));
            }
            assert forall|k: Seq<char>|
                entries_view(d2@).contains_key(k) implies entries_view(
                d1@,
            ).contains_key(k) by {
                lemma_entries_view_contains(d2@, k);
                let p = choose|p: int|
                    0 <= p < d2@.len() && (#[trigger] d2@[p]).0@ == k;
                assert(entries_view(d1@).contains_key(d2@[p].0@));
            }
            assert forall|k: Seq<char>|
                entries_view(d1@).contains_key(k) implies entries_view(d1@)[k]
                == entries_view(d2@)[k] by {
                lemma_entries_view_contains(d1@, k);
                let p = choose|p: int|
                    0 <= p < d1@.len() && (#[trigger] d1@[p]).0@ == k;
                assert(entries_view(d2@)[d1@[p].0@] == entries_view(d1@)[d1@[p].0@]);
            }
        }
    }
    true
}

/// Nodes of different variants never model the same value.
proof fn lemma_view_variants_differ(a: Node, b: Node)
    ensures
        !(a is String && b is String) && !(a is Integer && b is Integer) && !(a is Float && b
            is Float) && !(a is Bool && b is Bool) && !(a is Array && b is Array) && !(a is Dict
            && b is Dict) && !(a is Null && b is Null) ==> a.view() != b.view(),
{
    match a {
        Node::String(_) => {},
        Node::Integer(_) => {},
        Node::Float(_) => {},
        Node::Bool(_) => {},
        Node::Array(_) => {},
        Node::Dict(_) => {},
        Node::Null => {},
    }
    match b {
        Node::String(_) => {},
        Node::Integer(_) => {},
        Node::Float(_) => {},
        Node::Bool(_) => {},
        Node::Array(_) => {},
        Node::Dict(_) => {},
        Node::Null => {},
    }
}

/// The top-level mapping a document parses to.
#[derive(Debug, PartialEq)]
pub struct Ast(pub Vec<(String, Node)>);

impl Ast {
    /// The model of the whole tree.
    pub open spec fn view(&self) -> Map<Seq<char>, Value> {
        entries_view(self.0@)
    }

    /// Well-formed: unique keys at every level.
    pub open spec fn wf(&self) -> bool {
        keys_unique(self.0@) && entries_wf(self.0@)
    }
}

/// The number of assignments a dictionary level holds, its own entries and
/// those of every nested dictionary counted together.
pub open spec fn spec_assignments(s: Seq<(String, Node)>) -> int
    decreases s, 1int,
{
    s.len() + spec_children(s)
}

/// The assignments held by the nested dictionaries among the values.
pub open spec fn spec_children(s: Seq<(String, Node)>) -> int
    decreases s, 0int,
{
    if s.len() == 0 {
        0
    } else {
        spec_children(s.drop_last()) + spec_child(s.last().1)
    }
}

/// The assignments inside one value: none unless it is a dictionary.
pub open spec fn spec_child(n: Node) -> int
    decreases n, 0int,
{
    match n {
        Node::Dict(d) => spec_assignments(d@),
        _ => 0,
    }
}

proof fn lemma_children_nonneg(s: Seq<(String, Node)>)
    ensures
        spec_children(s) >= 0,
    decreases s, 2int,
{
    if s.len() > 0 {
        lemma_children_nonneg(s.drop_last());
        lemma_child_nonneg(s.last().1);
    }
}

proof fn lemma_child_nonneg(n: Node)
    ensures
        spec_child(n) >= 0,
    decreases n, 3int,
{
    match n {
        Node::Dict(d) => {
            lemma_children_nonneg(d@);
        },
        _ => {},
    }
}

proof fn lemma_children_prefix(s: Seq<(String, Node)>, k: int)
    requires
        0 <= k <= s.len(),
    ensures
        spec_children(s) >= spec_children(s.take(k)),
        spec_children(s.take(k)) >= 0,
    decreases s.len() - k,
{
    if k == s.len() {
        assert(s.take(k) =~= s);
        lemma_children_nonneg(s);
    } else {
        lemma_children_prefix(s, k + 1);
        assert(s.take(k + 1).drop_last() =~= s.take(k));
        assert(s.take(k + 1).last() == s[k]);
        lemma_child_nonneg(s[k].1);
        lemma_children_nonneg(s.take(k));
    }
}

/// Counts the assignments of one dictionary level: every entry of the
/// level itself and, recursively, of each nested dictionary value.
#[verifier::rlimit(50)]
fn get_len(dict: &Vec<(String, Node)>) -> (r: usize)
    requires
        spec_assignments(dict@) <= usize::MAX,
    ensures
        r == spec_assignments(dict@),
    decreases *dict,
{
    proof {
        lemma_children_nonneg(dict@);
    }
    let mut acc: usize = 0;
    let mut i: usize = 0;
    proof {
        assert(dict@.take(0) =~= Seq::<(String, Node)>::empty());
    }
    while i < dict.len()
        invariant
            i <= dict@.len(),
            spec_assignments(dict@) <= usize::MAX,
            acc == spec_children(dict@.take(i as int)),
        decreases dict@.len() - i,
    {
        proof {
            assert(dict@.take(i + 1).drop_last() =~= dict@.take(i as int));
            assert(dict@.take(i + 1).last() == dict@[i as int]);
            lemma_children_prefix(dict@, i as int);
            lemma_children_prefix(dict@, i + 1);
            lemma_children_nonneg(dict@);
            assert(spec_children(dict@.take(i + 1)) == spec_children(dict@.take(i as int))
                + spec_child(dict@[i as int].1));
            assert(spec_child(dict@[i as int].1) <= spec_children(dict@));
            assert(spec_children(dict@) <= spec_assignments(dict@));
        }
        match &dict[i].1 {
            Node::Dict(inner) => {
                let c = get_len(inner);
                acc = acc + c;
            },
            _ => {},
        }
        i = i + 1;
    }
    proof {
        assert(dict@.take(dict@.len() as int) =~= dict@);
    }
    acc + dict.len()
}

impl Ast {
    /// The total number of assignments the tree holds, entries of nested
    /// dictionaries included.
    pub fn assignments(&self) -> (r: usize)
        requires
            spec_assignments(self.0@) <= usize::MAX,
        ensures
            r == spec_assignments(self.0@),
    {
        get_len(&self.0)
    }

    /// Whether two well-formed trees stand for the same mapping, entry
    /// order irrelevant.
    pub fn equivalent(&self, other: &Ast) -> (r: bool)
        requires
            self.wf(),
            other.wf(),
        ensures
            r == (self.view() == other.view()),
    {
        entries_equivalent(&self.0, &other.0)
    }
}

impl Default for Ast {
    /// The empty mapping.
    fn default() -> (r: Ast)
        ensures
            r.view() == Map::<Seq<char>, Value>::empty(),
            r.wf(),
            r.0@.len() == 0,
    {
        Ast(Vec::new())
    }
}

} // verus!
