//! A named record type: a mapping of field name to field type, plus a
//! mapping of field name to default value.
//!
//! A field present in `attributes` but absent from `defaults` is required; a
//! field present in both is optional with a default; a field whose default is
//! explicitly `Value::Nil` is optional with no default value.  Every key in
//! `defaults` also exists in `attributes`.

use vstd::prelude::*;
use crate::algebra::{clone_type, clone_value, type_dv, value_dv, Type, TypeV, Value, ValueV};
use crate::strmap::{assoc_v, has_key, lemma_insert_props, lemma_remove_props, StrMap};

verus! {

/// A table definition: field types and field defaults.
#[derive(Debug, PartialEq, Eq)]
pub struct Table {
    pub attributes: StrMap<Type>,
    pub defaults: StrMap<Value>,
}

/// The mathematical shape of a table: its two maps over deep views.
pub ghost struct TableV {
    pub attrs: Map<Seq<char>, TypeV>,
    pub defs: Map<Seq<char>, ValueV>,
}

impl Table {
    /// The mathematical shape of this table.
    pub open spec fn tv(&self) -> TableV {
        TableV { attrs: self.attrs(), defs: self.defs() }
    }

    /// Field name to field type, as a mathematical map over deep views.
    pub open spec fn attrs(&self) -> Map<Seq<char>, TypeV> {
        Map::new(
            |k: Seq<char>| has_key(self.attributes.sseq(), k),
            |k: Seq<char>| type_dv(assoc_v(self.attributes.sseq(), k)),
        )
    }

    /// Field name to default value, as a mathematical map over deep views.
    pub open spec fn defs(&self) -> Map<Seq<char>, ValueV> {
        Map::new(
            |k: Seq<char>| has_key(self.defaults.sseq(), k),
            |k: Seq<char>| value_dv(assoc_v(self.defaults.sseq(), k)),
        )
    }

    /// Keys are distinct in both maps, and every defaulted field is typed.
    pub open spec fn wf(&self) -> bool {
        &&& self.attributes.wf()
        &&& self.defaults.wf()
        &&& forall|k: Seq<char>|
            #[trigger] has_key(self.defaults.sseq(), k) ==> has_key(self.attributes.sseq(), k)
    }

    /// An empty table: no fields, no defaults.
    pub fn new() -> (r: Self)
        ensures
            r.wf(),
            r.attrs() =~= Map::<Seq<char>, TypeV>::empty(),
            r.defs() =~= Map::<Seq<char>, ValueV>::empty(),
    {
        Table { attributes: StrMap::new(), defaults: StrMap::new() }
    }

    /// Declares `name` as a required field of type `t`, overwriting any
    /// earlier declaration and clearing any stale default, so that the
    /// required/optional reading of the two maps stays in sync.
    pub fn add_required_field(&mut self, name: &str, t: Type)
        requires
            old(self).wf(),
        ensures
            final(self).wf(),
            final(self).attrs() == old(self).attrs().insert(name@, type_dv(t)),
            final(self).defs() == old(self).defs().remove(name@),
    {
        let owned = name.to_owned();
        proof {
            lemma_insert_props(self.attributes.sseq(), owned, t);
            lemma_remove_props(self.defaults.sseq(), name@);
        }
        self.attributes.insert(owned, t);
        self.defaults.remove(name);
        proof {
            assert(self.attrs() =~= old(self).attrs().insert(name@, type_dv(t)));
            assert(self.defs() =~= old(self).defs().remove(name@));
        }
    }

    /// Declares `name` with type `t` without touching `defaults`: the field
    /// stays required unless a default is added separately.
    pub fn add_optional_field(&mut self, name: &str, t: Type)
        requires
            old(self).wf(),
        ensures
            final(self).wf(),
            final(self).attrs() == old(self).attrs().insert(name@, type_dv(t)),
            final(self).defs() == old(self).defs(),
    {
        let owned = name.to_owned();
        proof {
            lemma_insert_props(self.attributes.sseq(), owned, t);
        }
        self.attributes.insert(owned, t);
        proof {
            assert(self.attrs() =~= old(self).attrs().insert(name@, type_dv(t)));
            assert(self.defs() =~= old(self).defs());
        }
    }

    /// Declares `name` with type `t` and default `default`, atomically.
    pub fn add_field(&mut self, name: &str, t: Type, default: Value)
        requires
            old(self).wf(),
        ensures
            final(self).wf(),
            final(self).attrs() == old(self).attrs().insert(name@, type_dv(t)),
            final(self).defs() == old(self).defs().insert(name@, value_dv(default)),
    {
        let owned = name.to_owned();
        let owned2 = name.to_owned();
        proof {
            lemma_insert_props(self.attributes.sseq(), owned, t);
            lemma_insert_props(self.defaults.sseq(), owned2, default);
        }
        self.attributes.insert(owned, t);
        self.defaults.insert(owned2, default);
        proof {
            assert(self.attrs() =~= old(self).attrs().insert(name@, type_dv(t)));
            assert(self.defs() =~= old(self).defs().insert(name@, value_dv(default)));
        }
    }

    /// Declares `name` as a required field whose type is the fixed string
    /// literal `literal`.
    pub fn add_literal_field(&mut self, name: &str, literal: &str)
        requires
            old(self).wf(),
        ensures
            final(self).wf(),
            final(self).attrs() == old(self).attrs().insert(
                name@,
                TypeV::StringLiteral(literal@),
            ),
            final(self).defs() == old(self).defs().remove(name@),
    {
        self.add_required_field(name, Type::StringLiteral(literal.to_owned()));
    }

    /// The declared type of `name`, if any.
    pub fn attr_of(&self, name: &str) -> (r: Option<&Type>)
        ensures
            match r {
                Some(t) => self.attrs().dom().contains(name@) && type_dv(*t)
                    == self.attrs()[name@],
                None => !self.attrs().dom().contains(name@),
            },
    {
        self.attributes.get(name)
    }

    /// The default value of `name`, if any.
    pub fn default_of(&self, name: &str) -> (r: Option<&Value>)
        ensures
            match r {
                Some(v) => self.defs().dom().contains(name@) && value_dv(*v)
                    == self.defs()[name@],
                None => !self.defs().dom().contains(name@),
            },
    {
        self.defaults.get(name)
    }

    /// A deep copy of the table, structurally equal to the original.
    pub fn duplicate(&self) -> (r: Self)
        requires
            self.wf(),
        ensures
            r.wf(),
            r.attrs() == self.attrs(),
            r.defs() == self.defs(),
    {
        let mut attributes: Vec<(String, Type)> = Vec::new();
        let mut i: usize = 0;
        while i < self.attributes.entries.len()
            invariant
                i <= self.attributes.entries@.len(),
                attributes@.len() == i,
                forall|j: int|
                    0 <= j < i ==> attributes@[j].0@ == self.attributes.entries@[j].0@
                        && type_dv(attributes@[j].1) == type_dv(self.attributes.entries@[j].1),
            decreases self.attributes.entries@.len() - i,
        {
            let name = self.attributes.entries[i].0.clone();
            let t = clone_type(&self.attributes.entries[i].1);
            attributes.push((name, t));
            i = i + 1;
        }
        let mut defaults: Vec<(String, Value)> = Vec::new();
        let mut j: usize = 0;
        while j < self.defaults.entries.len()
            invariant
                j <= self.defaults.entries@.len(),
                defaults@.len() == j,
                forall|p: int|
                    0 <= p < j ==> defaults@[p].0@ == self.defaults.entries@[p].0@
                        && value_dv(defaults@[p].1) == value_dv(self.defaults.entries@[p].1),
            decreases self.defaults.entries@.len() - j,
        {
            let name = self.defaults.entries[j].0.clone();
            let v = clone_value(&self.defaults.entries[j].1);
            defaults.push((name, v));
            j = j + 1;
        }
        let r = Table {
            attributes: StrMap { entries: attributes },
            defaults: StrMap { entries: defaults },
        };
        proof {
            let ra = r.attributes.sseq();
            let sa = self.attributes.sseq();
            let rd = r.defaults.sseq();
            let sd = self.defaults.sseq();
            lemma_same_keyed_assoc(ra, sa);
            lemma_same_keyed_assoc_vals(rd, sd);
            assert forall|k: Seq<char>| #[trigger] has_key(ra, k) implies
                type_dv(assoc_v(ra, k)) == type_dv(assoc_v(sa, k)) by {
                crate::strmap::lemma_key_idx(ra, k);
            }
            assert forall|k: Seq<char>| #[trigger] has_key(rd, k) implies
                value_dv(assoc_v(rd, k)) == value_dv(assoc_v(sd, k)) by {
                crate::strmap::lemma_key_idx(rd, k);
            }
            assert forall|p: int, q: int| 0 <= p < q < ra.len() implies
                ra[p].0@ != ra[q].0@ by {
                assert(sa[p].0@ != sa[q].0@);
            }
            assert forall|p: int, q: int| 0 <= p < q < rd.len() implies
                rd[p].0@ != rd[q].0@ by {
                assert(sd[p].0@ != sd[q].0@);
            }
            assert forall|k: Seq<char>| #[trigger] has_key(rd, k) implies has_key(ra, k) by {
                assert(has_key(sd, k));
                assert(has_key(sa, k));
            }
            assert(r.attrs() =~= self.attrs());
            assert(r.defs() =~= self.defs());
        }
        r
    }
}

/// The attribute map read from the first `n` entries of `s` alone.
pub open spec fn attrs_prefix(s: Seq<(String, Type)>, n: int) -> Map<Seq<char>, TypeV> {
    Map::new(
        |k: Seq<char>| 0 <= crate::strmap::key_idx(s, k) < n,
        |k: Seq<char>| type_dv(s[crate::strmap::key_idx(s, k)].1),
    )
}

/// The default map read from the first `n` entries of `s` alone.
pub open spec fn defs_prefix(s: Seq<(String, Value)>, n: int) -> Map<Seq<char>, ValueV> {
    Map::new(
        |k: Seq<char>| 0 <= crate::strmap::key_idx(s, k) < n,
        |k: Seq<char>| value_dv(s[crate::strmap::key_idx(s, k)].1),
    )
}

impl Table {
    /// Overlays `own` on this table: every field and default of `own` is
    /// copied in, overwriting what an ancestor declared, while fields only
    /// the ancestors declared stay visible.
    pub fn merge_over(&mut self, own: &Table)
        requires
            old(self).wf(),
            own.wf(),
        ensures
            final(self).wf(),
            final(self).attrs() == old(self).attrs().union_prefer_right(own.attrs()),
            final(self).defs() == old(self).defs().union_prefer_right(own.defs()),
    {
        let ghost oa = own.attributes.sseq();
        let ghost od = own.defaults.sseq();
        let mut i: usize = 0;
        while i < own.attributes.entries.len()
            invariant
                own.wf(),
                i <= oa.len(),
                oa == own.attributes.sseq(),
                od == own.defaults.sseq(),
                self.wf(),
                self.attrs() == old(self).attrs().union_prefer_right(attrs_prefix(oa, i as int)),
                self.defs() == old(self).defs(),
            decreases oa.len() - i,
        {
            let name = own.attributes.entries[i].0.clone();
            let t = clone_type(&own.attributes.entries[i].1);
            let ghost before = *self;
            proof {
                lemma_insert_props(self.attributes.sseq(), name, t);
            }
            self.attributes.insert(name, t);
            proof {
                crate::strmap::lemma_key_idx_at(oa, oa[i as int].0@, i as int);
                assert(self.attrs() =~= before.attrs().insert(oa[i as int].0@, type_dv(oa[i as int].1)));
                assert forall|k: Seq<char>|
                    #![trigger crate::strmap::key_idx(oa, k)]
                    true implies
                    (0 <= crate::strmap::key_idx(oa, k) < i + 1) == (0 <= crate::strmap::key_idx(oa, k)
                        < i || k == oa[i as int].0@) by {
                    crate::strmap::lemma_key_idx(oa, k);
                }
                assert(attrs_prefix(oa, i + 1) =~= attrs_prefix(oa, i as int).insert(
                    oa[i as int].0@,
                    type_dv(oa[i as int].1),
                ));
                assert(self.attrs() =~= old(self).attrs().union_prefer_right(
                    attrs_prefix(oa, i + 1),
                ));
                assert(self.defs() =~= before.defs());
            }
            i = i + 1;
        }
        proof {
            assert forall|k: Seq<char>|
                #![trigger crate::strmap::key_idx(oa, k)]
                true implies
                (0 <= crate::strmap::key_idx(oa, k) < oa.len() as int) == has_key(oa, k) by {
                crate::strmap::lemma_key_idx(oa, k);
            }
            assert(attrs_prefix(oa, oa.len() as int) =~= own.attrs());
            assert(self.attrs() =~= old(self).attrs().union_prefer_right(own.attrs()));
        }
        let mut j: usize = 0;
        while j < own.defaults.entries.len()
            invariant
                own.wf(),
                j <= od.len(),
                oa == own.attributes.sseq(),
                od == own.defaults.sseq(),
                self.wf(),
                self.attrs() == old(self).attrs().union_prefer_right(own.attrs()),
                self.defs() == old(self).defs().union_prefer_right(defs_prefix(od, j as int)),
            decreases od.len() - j,
        {
            let name = own.defaults.entries[j].0.clone();
            let v = clone_value(&own.defaults.entries[j].1);
            let ghost before = *self;
            proof {
                lemma_insert_props(self.defaults.sseq(), name, v);
            }
            self.defaults.insert(name, v);
            proof {
                crate::strmap::lemma_key_idx_at(od, od[j as int].0@, j as int);
                assert(self.defs() =~= before.defs().insert(od[j as int].0@, value_dv(od[j as int].1)));
                assert forall|k: Seq<char>|
                    #![trigger crate::strmap::key_idx(od, k)]
                    true implies
                    (0 <= crate::strmap::key_idx(od, k) < j + 1) == (0 <= crate::strmap::key_idx(od, k)
                        < j || k == od[j as int].0@) by {
                    crate::strmap::lemma_key_idx(od, k);
                }
                assert(defs_prefix(od, j + 1) =~= defs_prefix(od, j as int).insert(
                    od[j as int].0@,
                    value_dv(od[j as int].1),
                ));
                assert(self.defs() =~= old(self).defs().union_prefer_right(
                    defs_prefix(od, j + 1),
                ));
                assert(self.attrs() =~= before.attrs());
                assert forall|k: Seq<char>| #[trigger] has_key(self.defaults.sseq(), k) implies
                    has_key(self.attributes.sseq(), k) by {
                    if k != od[j as int].0@ {
                        assert(has_key(before.defaults.sseq(), k));
                    } else {
                        assert(has_key(od, k)) by {
                            crate::strmap::lemma_key_idx_at(od, k, j as int);
                        }
                        assert(own.attrs().dom().contains(k));
                        assert(self.attrs().dom().contains(k));
                    }
                }
            }
            j = j + 1;
        }
        proof {
            assert forall|k: Seq<char>|
                #![trigger crate::strmap::key_idx(od, k)]
                true implies
                (0 <= crate::strmap::key_idx(od, k) < od.len() as int) == has_key(od, k) by {
                crate::strmap::lemma_key_idx(od, k);
            }
            assert(defs_prefix(od, od.len() as int) =~= own.defs());
            assert(self.defs() =~= old(self).defs().union_prefer_right(own.defs()));
        }
    }
}

/// Two type assocs with pointwise equal keys and deep-equal values look up
/// the same everywhere.
proof fn lemma_same_keyed_assoc(a: Seq<(String, Type)>, b: Seq<(String, Type)>)
    requires
        a.len() == b.len(),
        forall|j: int|
            0 <= j < a.len() ==> a[j].0@ == b[j].0@ && type_dv(a[j].1) == type_dv(b[j].1),
    ensures
        forall|k: Seq<char>| #[trigger] crate::strmap::key_idx(a, k) == crate::strmap::key_idx(b, k),
    decreases a.len(),
{
    if a.len() > 0 {
        lemma_same_keyed_assoc(a.drop_first(), b.drop_first());
        assert(forall|j: int| 0 <= j < a.drop_first().len() ==> a.drop_first()[j] == a[j + 1]);
        assert(forall|j: int| 0 <= j < b.drop_first().len() ==> b.drop_first()[j] == b[j + 1]);
        assert forall|k: Seq<char>| #[trigger] crate::strmap::key_idx(a, k)
            == crate::strmap::key_idx(b, k) by {
            assert(a[0].0@ == b[0].0@);
            assert(crate::strmap::key_idx(a.drop_first(), k)
                == crate::strmap::key_idx(b.drop_first(), k));
        }
    }
}

/// Two value assocs with pointwise equal keys and deep-equal values look up
/// the same everywhere.
proof fn lemma_same_keyed_assoc_vals(a: Seq<(String, Value)>, b: Seq<(String, Value)>)
    requires
        a.len() == b.len(),
        forall|j: int|
            0 <= j < a.len() ==> a[j].0@ == b[j].0@ && value_dv(a[j].1) == value_dv(b[j].1),
    ensures
        forall|k: Seq<char>| #[trigger] crate::strmap::key_idx(a, k) == crate::strmap::key_idx(b, k),
    decreases a.len(),
{
    if a.len() > 0 {
        lemma_same_keyed_assoc_vals(a.drop_first(), b.drop_first());
        assert(forall|j: int| 0 <= j < a.drop_first().len() ==> a.drop_first()[j] == a[j + 1]);
        assert(forall|j: int| 0 <= j < b.drop_first().len() ==> b.drop_first()[j] == b[j + 1]);
        assert forall|k: Seq<char>| #[trigger] crate::strmap::key_idx(a, k)
            == crate::strmap::key_idx(b, k) by {
            assert(a[0].0@ == b[0].0@);
            assert(crate::strmap::key_idx(a.drop_first(), k)
                == crate::strmap::key_idx(b.drop_first(), k));
        }
    }
}

} // verus!
