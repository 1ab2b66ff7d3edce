//! The document data model: a closed recursive value variant and an
//! insertion-ordered field mapping with unique names.  A 64-bit float is
//! carried as its bit pattern: the store moves and stores it, and never
//! computes with it.
use vstd::prelude::*;

verus! {

/// A self-describing document value.
#[derive(Debug, PartialEq)]
pub enum Value {
    Null,
    Bool(bool),
    Int(i64),
    UInt(u64),
    /// A 64-bit float as its IEEE-754 bit pattern.
    F64Bits(u64),
    String(String),
    Bytes(Vec<u8>),
    Array(Vec<Value>),
    Nested(FieldMap),
}

/// An ordered mapping from field name to value: insertion-ordered, names
/// unique, a later insert of a known name replacing the value in place.
#[derive(Debug, PartialEq)]
pub struct FieldMap {
    /// The pairs, in insertion order.  Mutate only through the methods:
    /// they keep the names unique.
    pub entries: Vec<(String, Value)>,
}

/// The mathematical shape of a [`Value`]: the same tree over sequences.
pub enum Val {
    Null,
    Bool(bool),
    Int(i64),
    UInt(u64),
    F64Bits(u64),
    Str(Seq<char>),
    Bytes(Seq<u8>),
    Arr(Seq<Val>),
    Nested(Seq<(Seq<char>, Val)>),
}

impl Value {
    /// The value this tree stands for.
    pub open spec fn model(self) -> Val
        decreases self,
    {
        match self {
            Value::Null => Val::Null,
            Value::Bool(b) => Val::Bool(b),
            Value::Int(i) => Val::Int(i),
            Value::UInt(u) => Val::UInt(u),
            Value::F64Bits(b) => Val::F64Bits(b),
            Value::String(s) => Val::Str(s@),
            Value::Bytes(b) => Val::Bytes(b@),
            Value::Array(vs) => Val::Arr(model_seq(vs@)),
            Value::Nested(m) => Val::Nested(model_pairs(m.entries@)),
        }
    }
}

/// The values a sequence of trees stands for, in order.
pub open spec fn model_seq(vs: Seq<Value>) -> Seq<Val>
    decreases vs,
{
    if vs.len() == 0 {
        Seq::empty()
    } else {
        Seq::empty().push(vs[0].model()) + model_seq(vs.drop_first())
    }
}

/// The pairs a sequence of (name, value) entries stands for, in order.
pub open spec fn model_pairs(ps: Seq<(String, Value)>) -> Seq<(Seq<char>, Val)>
    decreases ps,
{
    if ps.len() == 0 {
        Seq::empty()
    } else {
        Seq::empty().push((ps[0].0@, ps[0].1.model())) + model_pairs(ps.drop_first())
    }
}

/// `model_seq` maps the sequence pointwise.
pub proof fn lemma_model_seq(vs: Seq<Value>)
    ensures
        model_seq(vs).len() == vs.len(),
        forall|i: int| 0 <= i < vs.len() ==> model_seq(vs)[i] == vs[i].model(),
    decreases vs.len(),
{
    if vs.len() > 0 {
        lemma_model_seq(vs.drop_first());
        assert forall|i: int| 0 <= i < vs.len() implies model_seq(vs)[i] == vs[i].model() by {
            if i > 0 {
                assert(vs.drop_first()[i - 1] == vs[i]);
                assert(model_seq(vs)[i] == model_seq(vs.drop_first())[i - 1]);
            }
        }
    }
}

/// `model_pairs` maps the sequence pointwise.
pub proof fn lemma_model_pairs(ps: Seq<(String, Value)>)
    ensures
        model_pairs(ps).len() == ps.len(),
        forall|i: int|
            0 <= i < ps.len() ==> model_pairs(ps)[i] == (ps[i].0@, ps[i].1.model()),
    decreases ps.len(),
{
    if ps.len() > 0 {
        lemma_model_pairs(ps.drop_first());
        assert forall|i: int|
            0 <= i < ps.len() implies model_pairs(ps)[i] == (ps[i].0@, ps[i].1.model()) by {
            if i > 0 {
                assert(ps.drop_first()[i - 1] == ps[i]);
                assert(model_pairs(ps)[i] == model_pairs(ps.drop_first())[i - 1]);
            }
        }
    }
}

/// The position of the first pair carrying `name`, or `-1`.
pub open spec fn spec_index_of(s: Seq<(Seq<char>, Val)>, name: Seq<char>) -> int
    decreases s.len(),
{
    if s.len() == 0 {
        -1
    } else if s[0].0 == name {
        0
    } else {
        let r = spec_index_of(s.drop_first(), name);
        if r < 0 {
            -1
        } else {
            r + 1
        }
    }
}

pub open spec fn spec_contains_name(s: Seq<(Seq<char>, Val)>, name: Seq<char>) -> bool {
    spec_index_of(s, name) >= 0
}

/// What `spec_index_of` finds is a position of `name`, and the first one.
pub proof fn lemma_index_of(s: Seq<(Seq<char>, Val)>, name: Seq<char>)
    ensures
        spec_index_of(s, name) >= 0 ==> spec_index_of(s, name) < s.len() && s[spec_index_of(
            s,
            name,
        )].0 == name,
        spec_index_of(s, name) < 0 ==> forall|i: int|
            0 <= i < s.len() ==> s[i].0 != name,
    decreases s.len(),
{
    if s.len() > 0 && s[0].0 != name {
        lemma_index_of(s.drop_first(), name);
        let r = spec_index_of(s.drop_first(), name);
        if r >= 0 {
            assert(s[r + 1] == s.drop_first()[r]);
        } else {
            assert forall|i: int| 0 <= i < s.len() implies s[i].0 != name by {
                if i > 0 {
                    assert(s.drop_first()[i - 1] == s[i]);
                }
            }
        }
    }
}

impl FieldMap {
    /// The sequence of (name, value) pairs this mapping stands for.
    pub open spec fn model(self) -> Seq<(Seq<char>, Val)> {
        model_pairs(self.entries@)
    }

    /// Names are pairwise distinct.
    pub open spec fn wf(self) -> bool {
        forall|i: int, j: int|
            0 <= i < j < self.model().len() ==> self.model()[i].0 != self.model()[j].0
    }

    /// An empty mapping.
    pub fn new() -> (r: FieldMap)
        ensures
            r.wf(),
            r.model() =~= Seq::<(Seq<char>, Val)>::empty(),
    {
        FieldMap { entries: Vec::new() }
    }

    pub fn len(&self) -> (r: usize)
        ensures
            r == self.model().len(),
    {
        proof {
            lemma_fieldmap_model(*self);
        }
        self.entries.len()
    }

    /// The pair at a position, in insertion order.
    pub fn entry(&self, i: usize) -> (r: &(String, Value))
        requires
            i < self.model().len(),
        ensures
            r.0@ == self.model()[i as int].0,
            r.1.model() == self.model()[i as int].1,
    {
        proof {
            lemma_fieldmap_model(*self);
        }
        &self.entries[i]
    }

    /// The position of `name`, scanning in insertion order.
    fn index_of(&self, name: &String) -> (r: Option<usize>)
        ensures
            r matches Some(i) ==> i == spec_index_of(self.model(), name@),
            r is None ==> spec_index_of(self.model(), name@) < 0,
    {
        proof {
            lemma_fieldmap_model(*self);
        }
        let n = self.entries.len();
        let mut i: usize = 0;
        while i < n
            invariant
                n == self.model().len(),
                n == self.entries@.len(),
                i <= n,
                forall|j: int| 0 <= j < i ==> self.model()[j].0 != name@,
                forall|j: int|
                    0 <= j < n ==> self.model()[j] == (
                        self.entries@[j].0@,
                        self.entries@[j].1.model(),
                    ),
            decreases n - i,
        {
            let hit = self.entries[i].0 == *name;
            if hit {
                proof {
                    lemma_index_of_skip_hit(self.model(), name@, i as int);
                }
                return Some(i);
            }
            i = i + 1;
        }
        proof {
            lemma_index_of(self.model(), name@);
        }
        None
    }

    /// Insert a pair.  A fresh name goes to the end; a known name keeps
    /// its position and has its value replaced, the old value returned.
    pub fn insert(&mut self, name: String, value: Value) -> (r: Option<Value>)
        requires
            old(self).wf(),
        ensures
            final(self).wf(),
            !spec_contains_name(old(self).model(), name@) ==> {
                &&& final(self).model() =~= old(self).model().push((name@, value.model()))
                &&& r is None
            },
            spec_contains_name(old(self).model(), name@) ==> {
                let at = spec_index_of(old(self).model(), name@);
                &&& final(self).model() =~= old(self).model().update(at, (name@, value.model()))
                &&& (r matches Some(prev) && prev.model() == old(self).model()[at].1)
            },
    {
        proof {
            lemma_index_of(self.model(), name@);
            lemma_fieldmap_model(*self);
        }
        match self.index_of(&name) {
            Some(i) => {
                let (kept_name, prev) = self.entries.remove(i);
                self.entries.insert(i, (kept_name, value));
                proof {
                    lemma_fieldmap_model(*self);
                    let at = spec_index_of(old(self).model(), name@);
                    lemma_index_of(old(self).model(), name@);
                    assert(final(self).model() =~= old(self).model().update(
                        at,
                        (old(self).model()[at].0, value.model()),
                    ));
                    assert(old(self).model()[at].0 == name@);
                }
                Some(prev)
            },
            None => {
                self.entries.push((name, value));
                proof {
                    lemma_fieldmap_model(*self);
                    assert(final(self).model() =~= old(self).model().push(
                        (name@, value.model()),
                    ));
                    lemma_index_of(old(self).model(), name@);
                    assert forall|i: int, j: int|
                        0 <= i < j < final(self).model().len() implies final(self).model()[i].0
                        != final(self).model()[j].0 by {
                        if j < old(self).model().len() {
                            assert(old(self).model()[i].0 != old(self).model()[j].0);
                        }
                    }
                }
                None
            },
        }
    }

    /// Look a name up, scanning in insertion order.
    pub fn get(&self, name: &str) -> (r: Option<&Value>)
        ensures
            spec_contains_name(self.model(), name@) ==> (r matches Some(v) && v.model()
                == self.model()[spec_index_of(self.model(), name@)].1),
            !spec_contains_name(self.model(), name@) ==> r is None,
    {
        let key = name.to_owned();
        proof {
            lemma_fieldmap_model(*self);
            lemma_index_of(self.model(), name@);
        }
        match self.index_of(&key) {
            Some(i) => Some(&self.entries[i].1),
            None => None,
        }
    }

    /// Collect pairs in order; a repeated name replaces the value at the
    /// name's first position.
    pub fn from_pairs(pairs: Vec<(String, Value)>) -> (r: FieldMap)
        ensures
            r.wf(),
            r.model() =~= spec_accumulate(Seq::empty(), model_pairs(pairs@)),
    {
        let mut m = FieldMap::new();
        let mut rest = pairs;
        proof {
            assert(model_pairs(rest@) =~= model_pairs(pairs@));
        }
        while rest.len() > 0
            invariant
                m.wf(),
                spec_accumulate(m.model(), model_pairs(rest@)) =~= spec_accumulate(
                    Seq::empty(),
                    model_pairs(pairs@),
                ),
            decreases rest@.len(),
        {
            let ghost pre_m = m.model();
            let ghost pre_rest = model_pairs(rest@);
            let (k, v) = rest.remove(0);
            proof {
                assert(model_pairs(rest@) =~= pre_rest.drop_first());
                assert(pre_rest[0] == (k@, v.model()));
            }
            m.insert(k, v);
            proof {
                lemma_index_of(pre_m, k@);
                assert(m.model() =~= spec_insert(pre_m, k@, v.model()));
            }
        }
        proof {
            assert(model_pairs(rest@) =~= Seq::<(Seq<char>, Val)>::empty());
        }
        m
    }
}

/// One insertion at the model level: a fresh name goes to the end, a
/// known name keeps its position and has its value replaced.
pub open spec fn spec_insert(s: Seq<(Seq<char>, Val)>, name: Seq<char>, val: Val) -> Seq<
    (Seq<char>, Val),
> {
    if spec_contains_name(s, name) {
        s.update(spec_index_of(s, name), (name, val))
    } else {
        s.push((name, val))
    }
}

/// Folding a pair sequence into a mapping, front to back.
pub open spec fn spec_accumulate(
    acc: Seq<(Seq<char>, Val)>,
    rest: Seq<(Seq<char>, Val)>,
) -> Seq<(Seq<char>, Val)>
    decreases rest.len(),
{
    if rest.len() == 0 {
        acc
    } else {
        spec_accumulate(spec_insert(acc, rest[0].0, rest[0].1), rest.drop_first())
    }
}

/// A mapping's model lists exactly its entries, in order.
pub proof fn lemma_fieldmap_model(m: FieldMap)
    ensures
        m.model().len() == m.entries@.len(),
        forall|i: int|
            0 <= i < m.entries@.len() ==> m.model()[i] == (
                m.entries@[i].0@,
                m.entries@[i].1.model(),
            ),
{
    lemma_model_pairs(m.entries@);
}

/// When the head of the scanned tail carries the name, the index in the
/// whole sequence is the scan position.
proof fn lemma_index_of_skip_hit(s: Seq<(Seq<char>, Val)>, name: Seq<char>, i: int)
    requires
        0 <= i < s.len(),
        s[i].0 == name,
        forall|j: int| 0 <= j < i ==> s[j].0 != name,
    ensures
        spec_index_of(s, name) == i,
    decreases i,
{
    if i == 0 {
    } else {
        assert(s[0].0 != name);
        let t = s.drop_first();
        assert(t[i - 1] == s[i]);
        assert(forall|j: int| 0 <= j < i - 1 ==> t[j] == s[j + 1]);
        lemma_index_of_skip_hit(t, name, i - 1);
    }
}

} // verus!
