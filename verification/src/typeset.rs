//! The aggregate root: named types, named table definitions, and the
//! prototype registry with its bidirectional name map, abstractness flags and
//! single-parent inheritance links, plus effective-schema resolution.

use vstd::prelude::*;
use crate::algebra::{type_dv, Type, TypeV};
use crate::strmap::{assoc_v, has_key, lemma_insert_props, lemma_key_idx, StrMap};
use crate::table::{Table, TableV};

verus! {

/// The errors this model reports.  None is fatal: a failed resolution or a
/// malformed persisted blob leaves the aggregate usable.
#[derive(Debug, PartialEq, Eq, Structural, Clone, Copy)]
pub enum SchemaError {
    /// The inheritance walk revisited a type name.
    CycleDetected,
    /// A referenced type name has no corresponding registered entry.
    DanglingParent,
    /// A persisted blob failed to parse.
    MalformedPersistedState,
}

#[verifier::external_type_specification]
#[verifier::external_body]
#[verifier::reject_recursive_types(L)]
#[verifier::reject_recursive_types(R)]
#[verifier::reject_recursive_types(LS)]
#[verifier::reject_recursive_types(RS)]
pub struct ExBiHashMap<L, R, LS, RS>(bimap::BiHashMap<L, R, LS, RS>);

/// The pairs held by a prototype bimap, keyed by the left (type-name) side.
pub uninterp spec fn proto_pairs(m: bimap::BiHashMap<String, String>) -> Map<Seq<char>, Seq<char>>;

/// No two left keys map to the same right value.
pub open spec fn bipairs_injective(m: Map<Seq<char>, Seq<char>>) -> bool {
    forall|k1: Seq<char>, k2: Seq<char>|
        m.dom().contains(k1) && m.dom().contains(k2) && m[k1] == m[k2] ==> k1 == k2
}

/// The pair map after an overwriting bimap insert: any pairing of the same
/// left key or the same right value is evicted, then `(l, r)` is added.
pub open spec fn spec_bipairs_insert(
    m: Map<Seq<char>, Seq<char>>,
    l: Seq<char>,
    r: Seq<char>,
) -> Map<Seq<char>, Seq<char>> {
    Map::new(
        |k: Seq<char>| k == l || (m.dom().contains(k) && m[k] != r && k != l),
        |k: Seq<char>| if k == l {
            r
        } else {
            m[k]
        },
    )
}

/// The empty pair map.
pub open spec fn empty_pairs() -> Map<Seq<char>, Seq<char>> {
    Map::empty()
}

/// Relies on `bimap::BiHashMap::new`: creates an empty bimap.
#[verifier::external_body]
pub(crate) fn bimap_new() -> (out: bimap::BiHashMap<String, String>)
    ensures
        proto_pairs(out) == empty_pairs(),
{
    bimap::BiHashMap::new()
}

/// Relies on `bimap::BiHashMap::insert`: removes any pairing sharing the
/// left key and any pairing sharing the right value, then stores the pair;
/// the returned `Overwritten` is `Neither` exactly when nothing was evicted.
#[verifier::external_body]
pub(crate) fn bimap_insert(m: &mut bimap::BiHashMap<String, String>, l: String, r: String) -> (evicted:
    bool)
    ensures
        proto_pairs(*final(m)) == spec_bipairs_insert(proto_pairs(*old(m)), l@, r@),
        evicted == (proto_pairs(*old(m)).dom().contains(l@) || exists|k: Seq<char>|
            proto_pairs(*old(m)).contains_pair(k, r@)),
{
    match m.insert(l, r) {
        bimap::Overwritten::Neither => false,
        _ => true,
    }
}

/// Relies on `bimap::BiHashMap::get_by_left`: the right value paired with
/// the given left key, if the key is held.
#[verifier::external_body]
fn bimap_get_by_left<'a>(m: &'a bimap::BiHashMap<String, String>, l: &String) -> (r: Option<
    &'a String,
>)
    ensures
        match r {
            Some(x) => proto_pairs(*m).contains_pair(l@, x@),
            None => !proto_pairs(*m).dom().contains(l@),
        },
{
    m.get_by_left(l)
}

/// Relies on `bimap::BiHashMap::get_by_right`: the left key paired with the
/// given right value, if that value is held.
#[verifier::external_body]
fn bimap_get_by_right<'a>(m: &'a bimap::BiHashMap<String, String>, r: &String) -> (l: Option<
    &'a String,
>)
    ensures
        match l {
            Some(x) => proto_pairs(*m).contains_pair(x@, r@),
            None => forall|k: Seq<char>| !proto_pairs(*m).contains_pair(k, r@),
        },
{
    m.get_by_right(r)
}

/// Relies on `bimap::BiHashMap::iter`: yields every stored pair exactly
/// once, in some order.
#[verifier::external_body]
pub(crate) fn bimap_pairs_vec(m: &bimap::BiHashMap<String, String>) -> (r: Vec<(String, String)>)
    ensures
        forall|i: int|
            0 <= i < r@.len() ==> proto_pairs(*m).contains_pair(#[trigger] r@[i].0@, r@[i].1@),
        forall|i: int, j: int| 0 <= i < j < r@.len() ==> r@[i].0@ != r@[j].0@,
        forall|k: Seq<char>| #[trigger] proto_pairs(*m).dom().contains(k) ==> exists|i: int|
            0 <= i < r@.len() && r@[i].0@ == k,
{
    let mut v = Vec::new();
    for (l, r) in m.iter() {
        v.push((l.clone(), r.clone()));
    }
    v
}

/// The view of a stored inheritance link.
pub open spec fn olink_dv(o: Option<String>) -> Option<Seq<char>> {
    match o {
        Some(s) => Some(s@),
        None => None,
    }
}

/// The aggregate owning the whole schema model.
pub struct TypeSet {
    pub types: StrMap<Type>,
    pub tables: StrMap<Table>,
    pub prototypes: bimap::BiHashMap<String, String>,
    pub prototype_abstractness: StrMap<bool>,
    pub prototype_inheritance: StrMap<Option<String>>,
}

impl TypeSet {
    /// Type name to type, as a mathematical map over deep views.
    pub open spec fn types_map(&self) -> Map<Seq<char>, TypeV> {
        Map::new(
            |k: Seq<char>| has_key(self.types.sseq(), k),
            |k: Seq<char>| type_dv(assoc_v(self.types.sseq(), k)),
        )
    }

    /// Type name to table definition, as a mathematical map.
    pub open spec fn tables_map(&self) -> Map<Seq<char>, TableV> {
        Map::new(
            |k: Seq<char>| has_key(self.tables.sseq(), k),
            |k: Seq<char>| assoc_v(self.tables.sseq(), k).tv(),
        )
    }

    /// Type name to external prototype discriminator.
    pub open spec fn protos(&self) -> Map<Seq<char>, Seq<char>> {
        proto_pairs(self.prototypes)
    }

    /// Type name to abstractness flag.
    pub open spec fn abst_map(&self) -> Map<Seq<char>, bool> {
        Map::new(
            |k: Seq<char>| has_key(self.prototype_abstractness.sseq(), k),
            |k: Seq<char>| assoc_v(self.prototype_abstractness.sseq(), k),
        )
    }

    /// Type name to optional parent type name.
    pub open spec fn inher_map(&self) -> Map<Seq<char>, Option<Seq<char>>> {
        Map::new(
            |k: Seq<char>| has_key(self.prototype_inheritance.sseq(), k),
            |k: Seq<char>| olink_dv(assoc_v(self.prototype_inheritance.sseq(), k)),
        )
    }

    /// Every inner map keeps its keys distinct, every stored table is well
    /// formed, and the prototype map is a true bijection.
    pub open spec fn wf(&self) -> bool {
        &&& self.types.wf()
        &&& self.tables.wf()
        &&& self.prototype_abstractness.wf()
        &&& self.prototype_inheritance.wf()
        &&& forall|i: int|
            0 <= i < self.tables.sseq().len() ==> (#[trigger] self.tables.sseq()[i].1).wf()
        &&& bipairs_injective(self.protos())
    }

    /// An empty aggregate: no types, no tables, no prototypes.
    pub fn new() -> (r: Self)
        ensures
            r.wf(),
            r.types_map() =~= Map::<Seq<char>, TypeV>::empty(),
            r.tables_map() =~= Map::<Seq<char>, TableV>::empty(),
            r.protos() =~= Map::<Seq<char>, Seq<char>>::empty(),
            r.abst_map() =~= Map::<Seq<char>, bool>::empty(),
            r.inher_map() =~= Map::<Seq<char>, Option<Seq<char>>>::empty(),
    {
        TypeSet {
            types: StrMap::new(),
            tables: StrMap::new(),
            prototypes: bimap_new(),
            prototype_abstractness: StrMap::new(),
            prototype_inheritance: StrMap::new(),
        }
    }

    /// Stores `t` under `name`, overwriting any earlier type of that name.
    pub fn add_type(&mut self, name: String, t: Type)
        requires
            old(self).wf(),
        ensures
            final(self).wf(),
            final(self).types_map() == old(self).types_map().insert(name@, type_dv(t)),
            final(self).tables_map() == old(self).tables_map(),
            final(self).protos() == old(self).protos(),
            final(self).abst_map() == old(self).abst_map(),
            final(self).inher_map() == old(self).inher_map(),
    {
        proof {
            lemma_insert_props(self.types.sseq(), name, t);
        }
        self.types.insert(name, t);
        proof {
            assert(self.types_map() =~= old(self).types_map().insert(name@, type_dv(t)));
            assert(self.tables_map() =~= old(self).tables_map());
            assert(self.abst_map() =~= old(self).abst_map());
            assert(self.inher_map() =~= old(self).inher_map());
        }
    }

    /// The type stored under `name`, if any.
    pub fn get(&self, name: &str) -> (r: Option<&Type>)
        ensures
            match r {
                Some(t) => self.types_map().dom().contains(name@) && type_dv(*t)
                    == self.types_map()[name@],
                None => !self.types_map().dom().contains(name@),
            },
    {
        self.types.get(name)
    }

    /// Stores the table definition `t` under `name`, overwriting any earlier
    /// definition of that name.
    pub fn add_table(&mut self, name: String, t: Table)
        requires
            old(self).wf(),
            t.wf(),
        ensures
            final(self).wf(),
            final(self).tables_map() == old(self).tables_map().insert(name@, t.tv()),
            final(self).types_map() == old(self).types_map(),
            final(self).protos() == old(self).protos(),
            final(self).abst_map() == old(self).abst_map(),
            final(self).inher_map() == old(self).inher_map(),
    {
        proof {
            lemma_insert_props(self.tables.sseq(), name, t);
        }
        self.tables.insert(name, t);
        proof {
            let s2 = self.tables.sseq();
            let s1 = old(self).tables.sseq();
            assert forall|i: int| 0 <= i < s2.len() implies (#[trigger] s2[i].1).wf() by {
                if s2[i].1 != t {
                    assert(crate::strmap::spec_insert(s1, name, t) == s2);
                    if crate::strmap::key_idx(s1, name@) >= 0 {
                        lemma_key_idx(s1, name@);
                        if i != crate::strmap::key_idx(s1, name@) {
                            assert(s2[i] == s1[i]);
                        }
                    } else {
                        if i < s1.len() {
                            assert(s2[i] == s1[i]);
                        }
                    }
                }
            }
            assert(self.tables_map() =~= old(self).tables_map().insert(name@, t.tv()));
            assert(self.types_map() =~= old(self).types_map());
            assert(self.abst_map() =~= old(self).abst_map());
            assert(self.inher_map() =~= old(self).inher_map());
        }
    }

    /// The table definition stored under `name`, if any.
    pub fn get_table(&self, name: &str) -> (r: Option<&Table>)
        ensures
            match r {
                Some(t) => self.tables_map().dom().contains(name@) && t.tv()
                    == self.tables_map()[name@],
                None => !self.tables_map().dom().contains(name@),
            },
    {
        self.tables.get(name)
    }

    /// Registers `tname` as a prototype family: its external
    /// discriminator, its abstractness flag and its optional parent, all
    /// stored atomically.  A parent that is not itself a registered
    /// prototype is rejected up front and nothing is stored.  Installing a
    /// pair that would break the bijection evicts the stale pairing; the
    /// `Ok` value reports whether that happened.
    pub fn setup_prototype(
        &mut self,
        tname: String,
        prototype_name: String,
        is_abstract: bool,
        parent_type: Option<String>,
    ) -> (r: Result<bool, SchemaError>)
        requires
            old(self).wf(),
        ensures
            final(self).wf(),
            r is Err <==> (olink_dv(parent_type) matches Some(p)
                && !old(self).protos().dom().contains(p)),
            r matches Err(e) ==> e == SchemaError::DanglingParent && *final(self) == *old(self),
            r matches Ok(evicted) ==> {
                &&& final(self).protos() == spec_bipairs_insert(
                    old(self).protos(),
                    tname@,
                    prototype_name@,
                )
                &&& final(self).abst_map() == old(self).abst_map().insert(
                    tname@,
                    is_abstract,
                )
                &&& final(self).inher_map() == old(self).inher_map().insert(
                    tname@,
                    olink_dv(parent_type),
                )
                &&& final(self).types_map() == old(self).types_map()
                &&& final(self).tables_map() == old(self).tables_map()
                &&& evicted == (old(self).protos().dom().contains(tname@)
                    || exists|k: Seq<char>|
                    old(self).protos().contains_pair(k, prototype_name@))
            },
    {
        match &parent_type {
            Some(p) => {
                if bimap_get_by_left(&self.prototypes, p).is_none() {
                    return Err(SchemaError::DanglingParent);
                }
            }
            None => {}
        }
        let evicted = bimap_insert(&mut self.prototypes, tname.clone(), prototype_name);
        proof {
            lemma_insert_props(self.prototype_abstractness.sseq(), tname, is_abstract);
            lemma_insert_props(self.prototype_inheritance.sseq(), tname, parent_type);
        }
        self.prototype_abstractness.insert(tname.clone(), is_abstract);
        self.prototype_inheritance.insert(tname, parent_type);
        proof {
            lemma_bipairs_insert_bijective(old(self).protos(), tname@, prototype_name@);
            assert(self.abst_map() =~= old(self).abst_map().insert(tname@, is_abstract));
            assert(self.inher_map() =~= old(self).inher_map().insert(
                tname@,
                olink_dv(parent_type),
            ));
            assert(self.types_map() =~= old(self).types_map());
            assert(self.tables_map() =~= old(self).tables_map());
        }
        Ok(evicted)
    }

    /// The external discriminator registered for `tname`, if any.
    pub fn lookup_by_type(&self, tname: &str) -> (r: Option<&String>)
        ensures
            match r {
                Some(x) => self.protos().contains_pair(tname@, x@),
                None => !self.protos().dom().contains(tname@),
            },
    {
        let owned = tname.to_owned();
        bimap_get_by_left(&self.prototypes, &owned)
    }

    /// The type name registered under the discriminator `discr`, if any.
    pub fn lookup_by_discriminator(&self, discr: &str) -> (r: Option<&String>)
        ensures
            match r {
                Some(x) => self.protos().contains_pair(x@, discr@),
                None => forall|k: Seq<char>| !self.protos().contains_pair(k, discr@),
            },
    {
        let owned = discr.to_owned();
        bimap_get_by_right(&self.prototypes, &owned)
    }

    /// The abstractness flag registered for `name`, if any.
    pub fn is_abstract(&self, name: &str) -> (r: Option<bool>)
        ensures
            match r {
                Some(b) => self.abst_map().dom().contains(name@) && b == self.abst_map()[name@],
                None => !self.abst_map().dom().contains(name@),
            },
    {
        match self.prototype_abstractness.get(name) {
            Some(b) => Some(*b),
            None => None,
        }
    }

    /// The inheritance link registered for `name`, if any.
    pub fn parent_of(&self, name: &str) -> (r: Option<&Option<String>>)
        ensures
            match r {
                Some(p) => self.inher_map().dom().contains(name@) && olink_dv(*p)
                    == self.inher_map()[name@],
                None => !self.inher_map().dom().contains(name@),
            },
    {
        self.prototype_inheritance.get(name)
    }
}

/// The set of names a visited-marker map holds.
pub open spec fn vset(v: StrMap<bool>) -> Set<Seq<char>> {
    Set::new(|k: Seq<char>| has_key(v.sseq(), k))
}

/// The effective schema seen from `cur` after walking its ancestors, with a
/// visited set for cycle detection and a fuel bound as the explicit depth
/// guard.  `cur`'s own fields shadow same-named ancestor fields.
pub open spec fn spec_resolve_chain(
    ts: TypeSet,
    cur: Seq<char>,
    visited: Set<Seq<char>>,
    fuel: nat,
) -> Result<TableV, SchemaError>
    decreases fuel,
{
    if visited.contains(cur) {
        Err(SchemaError::CycleDetected)
    } else if !ts.tables_map().dom().contains(cur) {
        Err(SchemaError::DanglingParent)
    } else {
        let own = ts.tables_map()[cur];
        let link = if ts.inher_map().dom().contains(cur) {
            ts.inher_map()[cur]
        } else {
            None
        };
        match link {
            None => Ok(own),
            Some(p) => if !ts.protos().dom().contains(p) {
                Err(SchemaError::DanglingParent)
            } else if fuel == 0 {
                Err(SchemaError::CycleDetected)
            } else {
                match spec_resolve_chain(ts, p, visited.insert(cur), (fuel - 1) as nat) {
                    Ok(pt) => Ok(
                        TableV {
                            attrs: pt.attrs.union_prefer_right(own.attrs),
                            defs: pt.defs.union_prefer_right(own.defs),
                        },
                    ),
                    Err(e) => Err(e),
                }
            },
        }
    }
}

/// The effective schema of `name`: its own fields over those of its
/// ancestors.  The fuel bound, the number of stored inheritance links, can
/// never cut off a terminating walk, so the result is `CycleDetected` or
/// `DanglingParent` exactly when the chain cycles or leaves the registry.
pub open spec fn spec_resolve(ts: TypeSet, name: Seq<char>) -> Result<TableV, SchemaError> {
    spec_resolve_chain(ts, name, Set::empty(), ts.prototype_inheritance.sseq().len() as nat)
}

impl TypeSet {
    /// One step of the resolution walk; mirrors `spec_resolve_chain`.
    fn resolve_chain(&self, cur: &str, visited: StrMap<bool>, fuel: usize) -> (r: Result<
        Table,
        SchemaError,
    >)
        requires
            self.wf(),
            visited.wf(),
        ensures
            match r {
                Ok(t) => t.wf() && (spec_resolve_chain(*self, cur@, vset(visited), fuel as nat)
                    matches Ok(tv) && t.attrs() == tv.attrs && t.defs() == tv.defs),
                Err(e) => spec_resolve_chain(*self, cur@, vset(visited), fuel as nat)
                    == Result::<TableV, SchemaError>::Err(e),
            },
        decreases fuel,
    {
        if visited.contains_key(cur) {
            return Err(SchemaError::CycleDetected);
        }
        let own = match self.tables.get(cur) {
            None => {
                return Err(SchemaError::DanglingParent);
            }
            Some(t) => t,
        };
        proof {
            lemma_key_idx(self.tables.sseq(), cur@);
            assert((self.tables.sseq()[crate::strmap::key_idx(self.tables.sseq(), cur@)].1).wf());
        }
        let parent: Option<&String> = match self.prototype_inheritance.get(cur) {
            Some(link) => match link {
                Some(p) => Some(p),
                None => None,
            },
            None => None,
        };
        match parent {
            None => Ok(own.duplicate()),
            Some(p) => {
                if bimap_get_by_left(&self.prototypes, p).is_none() {
                    return Err(SchemaError::DanglingParent);
                }
                if fuel == 0 {
                    return Err(SchemaError::CycleDetected);
                }
                let ghost vs0 = vset(visited);
                let mut visited2 = visited;
                let marker = cur.to_owned();
                proof {
                    crate::strmap::lemma_insert_props(visited2.sseq(), marker, true);
                }
                visited2.insert(marker, true);
                proof {
                    assert(vset(visited2) =~= vs0.insert(cur@));
                }
                match self.resolve_chain(p.as_str(), visited2, fuel - 1) {
                    Ok(mut base) => {
                        base.merge_over(own);
                        Ok(base)
                    }
                    Err(e) => Err(e),
                }
            }
        }
    }

    /// Resolves the effective schema of `name`: the union of its own fields
    /// and those of all its ancestors, the closest declaration winning on a
    /// name clash, with cycles and unregistered parents reported as errors.
    pub fn resolve(&self, name: &str) -> (r: Result<Table, SchemaError>)
        requires
            self.wf(),
        ensures
            match r {
                Ok(t) => t.wf() && (spec_resolve(*self, name@) matches Ok(tv) && t.attrs()
                    == tv.attrs && t.defs() == tv.defs),
                Err(e) => spec_resolve(*self, name@) == Result::<TableV, SchemaError>::Err(e),
            },
    {
        let fuel = self.prototype_inheritance.len();
        let visited: StrMap<bool> = StrMap::new();
        proof {
            assert(vset(visited) =~= Set::empty());
        }
        self.resolve_chain(name, visited, fuel)
    }
}

/// Law: storing a type then reading the same name yields exactly the stored
/// type — the last write wins.  `add_type` ensures the map insert on the
/// left; `get` reads the map on the right.
pub proof fn lemma_add_type_overwrites(types: Map<Seq<char>, TypeV>, n: Seq<char>, t: TypeV)
    ensures
        types.insert(n, t).dom().contains(n),
        types.insert(n, t)[n] == t,
{
}

/// Law: after registering the pair `(a, b)`, looking up by type name `a`
/// yields `b` and looking up by discriminator `b` yields `a`; and a later
/// pair reusing `b` removes the `a` pairing before installing its own.
pub proof fn lemma_prototype_bijection(m: Map<Seq<char>, Seq<char>>, a: Seq<char>, b: Seq<char>)
    requires
        bipairs_injective(m),
    ensures
        spec_bipairs_insert(m, a, b).contains_pair(a, b),
        forall|k: Seq<char>| spec_bipairs_insert(m, a, b).contains_pair(k, b) <==> k == a,
        forall|a2: Seq<char>|
            a2 != a ==> #[trigger] spec_bipairs_insert(spec_bipairs_insert(m, a, b), a2, b)
                .contains_pair(a2, b) && !spec_bipairs_insert(
                spec_bipairs_insert(m, a, b),
                a2,
                b,
            ).dom().contains(a),
{
}

/// Law: a two-cycle among the inheritance links makes resolution of either
/// participant fail with `CycleDetected`; it can never loop.
pub proof fn lemma_cycle_detected(ts: TypeSet, a: Seq<char>, b: Seq<char>)
    requires
        a != b,
        ts.prototype_inheritance.wf(),
        ts.tables_map().dom().contains(a),
        ts.tables_map().dom().contains(b),
        ts.protos().dom().contains(a),
        ts.protos().dom().contains(b),
        ts.inher_map().dom().contains(a),
        ts.inher_map().dom().contains(b),
        ts.inher_map()[a] == Some(b),
        ts.inher_map()[b] == Some(a),
    ensures
        spec_resolve(ts, a) == Result::<TableV, SchemaError>::Err(SchemaError::CycleDetected),
        spec_resolve(ts, b) == Result::<TableV, SchemaError>::Err(SchemaError::CycleDetected),
{
    let s = ts.prototype_inheritance.sseq();
    lemma_key_idx(s, a);
    lemma_key_idx(s, b);
    assert(key_idx_of(s, a) != key_idx_of(s, b));
    let fuel = s.len() as nat;
    assert(fuel >= 2);
    lemma_two_cycle_chain(ts, a, b, Set::empty(), fuel);
    lemma_two_cycle_chain(ts, b, a, Set::empty(), fuel);
}

/// The chain from `x` fails with `CycleDetected` when `x` and `y` point at
/// each other and neither was visited yet.
proof fn lemma_two_cycle_chain(ts: TypeSet, x: Seq<char>, y: Seq<char>, v: Set<Seq<char>>, fuel: nat)
    requires
        x != y,
        !v.contains(x),
        !v.contains(y),
        fuel >= 2,
        ts.tables_map().dom().contains(x),
        ts.tables_map().dom().contains(y),
        ts.protos().dom().contains(x),
        ts.protos().dom().contains(y),
        ts.inher_map().dom().contains(x),
        ts.inher_map().dom().contains(y),
        ts.inher_map()[x] == Some(y),
        ts.inher_map()[y] == Some(x),
    ensures
        spec_resolve_chain(ts, x, v, fuel) == Result::<TableV, SchemaError>::Err(
            SchemaError::CycleDetected,
        ),
{
    let v1 = v.insert(x);
    let v2 = v1.insert(y);
    assert(v2.contains(x));
    assert(spec_resolve_chain(ts, x, v2, (fuel - 2) as nat) == Result::<TableV, SchemaError>::Err(
        SchemaError::CycleDetected,
    ));
    assert(spec_resolve_chain(ts, y, v1, (fuel - 1) as nat) == Result::<TableV, SchemaError>::Err(
        SchemaError::CycleDetected,
    ));
}

/// The position `key_idx` reports, exposed for stating distinctness.
pub open spec fn key_idx_of(s: Seq<(String, Option<String>)>, k: Seq<char>) -> int {
    crate::strmap::key_idx(s, k)
}

/// Law: in the schema resolved for a child, a child field shadows a
/// same-named parent field, in type and in default, while every unshadowed
/// parent field still appears with the parent's type and default.
pub proof fn lemma_shadowing(ts: TypeSet, c: Seq<char>, p: Seq<char>)
    requires
        c != p,
        ts.prototype_inheritance.wf(),
        ts.tables_map().dom().contains(c),
        ts.tables_map().dom().contains(p),
        ts.protos().dom().contains(p),
        ts.inher_map().dom().contains(c),
        ts.inher_map()[c] == Some(p),
        !ts.inher_map().dom().contains(p) || ts.inher_map()[p] == None::<Seq<char>>,
    ensures
        spec_resolve(ts, c) matches Ok(rt) && {
            let ct = ts.tables_map()[c];
            let pt = ts.tables_map()[p];
            &&& rt.attrs == pt.attrs.union_prefer_right(ct.attrs)
            &&& rt.defs == pt.defs.union_prefer_right(ct.defs)
            &&& forall|f: Seq<char>|
                ct.attrs.dom().contains(f) ==> #[trigger] rt.attrs[f] == ct.attrs[f]
                    && rt.attrs.dom().contains(f)
            &&& forall|f: Seq<char>|
                ct.defs.dom().contains(f) ==> #[trigger] rt.defs[f] == ct.defs[f]
                    && rt.defs.dom().contains(f)
            &&& forall|f: Seq<char>|
                !ct.attrs.dom().contains(f) && pt.attrs.dom().contains(f)
                    ==> #[trigger] rt.attrs[f] == pt.attrs[f] && rt.attrs.dom().contains(f)
            &&& forall|f: Seq<char>|
                !ct.defs.dom().contains(f) && pt.defs.dom().contains(f)
                    ==> #[trigger] rt.defs[f] == pt.defs[f] && rt.defs.dom().contains(f)
        },
{
    let s = ts.prototype_inheritance.sseq();
    lemma_key_idx(s, c);
    let fuel = s.len() as nat;
    assert(fuel >= 1);
    let v1 = Set::empty().insert(c);
    assert(!v1.contains(p));
    assert(spec_resolve_chain(ts, p, v1, (fuel - 1) as nat) == Result::<TableV, SchemaError>::Ok(
        ts.tables_map()[p],
    ));
    assert(!Set::empty().contains(c));
}

/// Law: at every step of a resolution walk, however deep, the node's own
/// fields shadow its ancestors' in type and default; the resolved field set
/// is exactly the ancestors' resolved set united with the node's own; every
/// unshadowed ancestor field keeps the ancestors' type and default; and a
/// root resolves to its own table.  Applied along the chain, this gives
/// closest-wins shadowing and the key-set union at any depth.
pub proof fn lemma_chain_shadowing(ts: TypeSet, cur: Seq<char>, visited: Set<Seq<char>>, fuel: nat)
    ensures
        spec_resolve_chain(ts, cur, visited, fuel) matches Ok(rt) ==> {
            let own = ts.tables_map()[cur];
            let link = if ts.inher_map().dom().contains(cur) {
                ts.inher_map()[cur]
            } else {
                None
            };
            &&& ts.tables_map().dom().contains(cur)
            &&& forall|f: Seq<char>|
                own.attrs.dom().contains(f) ==> #[trigger] rt.attrs[f] == own.attrs[f]
                    && rt.attrs.dom().contains(f)
            &&& forall|f: Seq<char>|
                own.defs.dom().contains(f) ==> #[trigger] rt.defs[f] == own.defs[f]
                    && rt.defs.dom().contains(f)
            &&& (link is None ==> rt == own)
            &&& (link matches Some(p) ==> fuel > 0 && (spec_resolve_chain(
                ts,
                p,
                visited.insert(cur),
                (fuel - 1) as nat,
            ) matches Ok(pt) && rt.attrs.dom() == pt.attrs.dom().union(own.attrs.dom())
                && rt.defs.dom() == pt.defs.dom().union(own.defs.dom()) && (forall|f: Seq<char>|
                pt.attrs.dom().contains(f) && !own.attrs.dom().contains(f)
                    ==> #[trigger] rt.attrs[f] == pt.attrs[f]) && (forall|f: Seq<char>|
                pt.defs.dom().contains(f) && !own.defs.dom().contains(f)
                    ==> #[trigger] rt.defs[f] == pt.defs[f])))
        },
{
    if spec_resolve_chain(ts, cur, visited, fuel) is Ok {
        let own = ts.tables_map()[cur];
        let link = if ts.inher_map().dom().contains(cur) {
            ts.inher_map()[cur]
        } else {
            None
        };
        match link {
            None => {}
            Some(p) => {
                let sub = spec_resolve_chain(ts, p, visited.insert(cur), (fuel - 1) as nat);
                match sub {
                    Ok(pt) => {
                        let rt = (spec_resolve_chain(ts, cur, visited, fuel))->Ok_0;
                        assert(rt.attrs.dom() =~= pt.attrs.dom().union(own.attrs.dom()));
                        assert(rt.defs.dom() =~= pt.defs.dom().union(own.defs.dom()));
                    }
                    Err(_) => {}
                }
            }
        }
    }
}

/// The union of attribute keys over `cur`'s table and every ancestor the
/// walk reaches, following the same links, visited set and fuel as the
/// resolution itself.
pub open spec fn chain_attr_keys(
    ts: TypeSet,
    cur: Seq<char>,
    visited: Set<Seq<char>>,
    fuel: nat,
) -> Set<Seq<char>>
    decreases fuel,
{
    let own = ts.tables_map()[cur].attrs.dom();
    let link = if ts.inher_map().dom().contains(cur) {
        ts.inher_map()[cur]
    } else {
        None
    };
    match link {
        None => own,
        Some(p) => if fuel == 0 {
            own
        } else {
            chain_attr_keys(ts, p, visited.insert(cur), (fuel - 1) as nat).union(own)
        },
    }
}

/// The union of default keys over `cur`'s table and every ancestor the walk
/// reaches.
pub open spec fn chain_def_keys(
    ts: TypeSet,
    cur: Seq<char>,
    visited: Set<Seq<char>>,
    fuel: nat,
) -> Set<Seq<char>>
    decreases fuel,
{
    let own = ts.tables_map()[cur].defs.dom();
    let link = if ts.inher_map().dom().contains(cur) {
        ts.inher_map()[cur]
    } else {
        None
    };
    match link {
        None => own,
        Some(p) => if fuel == 0 {
            own
        } else {
            chain_def_keys(ts, p, visited.insert(cur), (fuel - 1) as nat).union(own)
        },
    }
}

/// Law: a successful resolution yields exactly the union of the walked
/// chain's field sets — every unshadowed ancestor field appears, and no
/// field appears that no chain member defines; likewise for defaults.
pub proof fn lemma_chain_key_union(ts: TypeSet, cur: Seq<char>, visited: Set<Seq<char>>, fuel: nat)
    ensures
        spec_resolve_chain(ts, cur, visited, fuel) matches Ok(rt) ==> rt.attrs.dom()
            == chain_attr_keys(ts, cur, visited, fuel) && rt.defs.dom() == chain_def_keys(
            ts,
            cur,
            visited,
            fuel,
        ),
    decreases fuel,
{
    if spec_resolve_chain(ts, cur, visited, fuel) is Ok {
        let rt = (spec_resolve_chain(ts, cur, visited, fuel))->Ok_0;
        let own = ts.tables_map()[cur];
        let link = if ts.inher_map().dom().contains(cur) {
            ts.inher_map()[cur]
        } else {
            None
        };
        match link {
            None => {}
            Some(p) => {
                lemma_chain_key_union(ts, p, visited.insert(cur), (fuel - 1) as nat);
                let sub = spec_resolve_chain(ts, p, visited.insert(cur), (fuel - 1) as nat);
                match sub {
                    Ok(pt) => {
                        assert(rt.attrs.dom() =~= pt.attrs.dom().union(own.attrs.dom()));
                        assert(rt.defs.dom() =~= pt.defs.dom().union(own.defs.dom()));
                    }
                    Err(_) => {}
                }
            }
        }
    }
}

/// An overwriting bimap insert keeps the pair map injective; the inserted
/// left key maps to the inserted right value; and the inserted right value
/// is paired with that left key alone.
pub proof fn lemma_bipairs_insert_bijective(
    m: Map<Seq<char>, Seq<char>>,
    l: Seq<char>,
    r: Seq<char>,
)
    requires
        bipairs_injective(m),
    ensures
        bipairs_injective(spec_bipairs_insert(m, l, r)),
        spec_bipairs_insert(m, l, r).contains_pair(l, r),
        forall|k: Seq<char>| spec_bipairs_insert(m, l, r).contains_pair(k, r) <==> k == l,
        forall|k: Seq<char>|
            k != l && m.dom().contains(k) && m[k] != r
                ==> #[trigger] spec_bipairs_insert(m, l, r).contains_pair(k, m[k]),
{
}

} // verus!
