//! Loading prefabs: the loader component, what loading a prefab does to its
//! entity, which entities lose the prefab marker, and which children of a
//! saved prefab are attached again.
use vstd::prelude::*;

verus! {

/// Marks an entity whose prefab is loaded from the file at `path`.
pub struct PrefabLoader {
    pub path: String,
}

impl Default for PrefabLoader {
    fn default() -> (r: Self)
        ensures
            r.path@ == Seq::<char>::empty(),
    {
        PrefabLoader { path: String::new() }
    }
}

/// Marks every entity that a prefab spawned, so that it is deleted with the
/// prefab.
pub struct PrefabAutoChild;

/// The components that spawn a prefab: its loader. The transform and
/// visibility components that go with it take their default values.
pub struct PrefabBundle {
    pub loader: PrefabLoader,
}

impl PrefabBundle {
    /// A bundle that loads the prefab at `path`.
    pub fn new(path: &str) -> (b: Self)
        ensures
            b.loader.path@ == path@,
    {
        PrefabBundle { loader: PrefabLoader { path: path.to_owned() } }
    }
}

impl Default for PrefabBundle {
    fn default() -> (r: Self)
        ensures
            r.loader.path@ == Seq::<char>::empty(),
    {
        PrefabBundle { loader: PrefabLoader::default() }
    }
}

/// The entities of `s` whose flag is set, in order.
pub open spec fn flagged(s: Seq<(u64, bool)>) -> Seq<u64>
    decreases s.len(),
{
    if s.len() == 0 {
        Seq::empty()
    } else {
        let rest = flagged(s.drop_last());
        if s.last().1 {
            rest.push(s.last().0)
        } else {
            rest
        }
    }
}

/// An entity is selected exactly when one of its entries has the flag set.
pub proof fn lemma_flagged_membership(s: Seq<(u64, bool)>, e: u64)
    ensures
        flagged(s).contains(e) <==> exists|i: int| 0 <= i < s.len() && #[trigger] s[i] == (e, true),
    decreases s.len(),
{
    if s.len() > 0 {
        let t = s.drop_last();
        lemma_flagged_membership(t, e);
        let r = flagged(t);
        if s.last().1 {
            let rp = r.push(s.last().0);
            assert(rp[r.len() as int] == s.last().0);
            if rp.contains(e) && e != s.last().0 {
                let k = choose|k: int| 0 <= k < rp.len() && rp[k] == e;
                assert(r[k] == e);
            }
            if r.contains(e) {
                let k = choose|k: int| 0 <= k < r.len() && r[k] == e;
                assert(rp[k] == e);
            }
            assert(s[s.len() - 1] == s.last());
        }
        if exists|i: int| 0 <= i < s.len() && #[trigger] s[i] == (e, true) {
            let i = choose|i: int| 0 <= i < s.len() && #[trigger] s[i] == (e, true);
            if i < s.len() - 1 {
                assert(t[i] == s[i]);
            }
        }
        if exists|i: int| 0 <= i < t.len() && #[trigger] t[i] == (e, true) {
            let i = choose|i: int| 0 <= i < t.len() && #[trigger] t[i] == (e, true);
            assert(s[i] == t[i]);
        }
    }
}

/// The entities of `entries` whose flag is set, in order.
pub fn select_flagged(entries: &Vec<(u64, bool)>) -> (r: Vec<u64>)
    ensures
        r@ == flagged(entries@),
{
    let mut r: Vec<u64> = Vec::new();
    let mut i: usize = 0;
    while i < entries.len()
        invariant
            i <= entries.len(),
            r@ == flagged(entries@.take(i as int)),
        decreases entries.len() - i,
    {
        let (e, set) = entries[i];
        proof {
            assert(entries@.take(i + 1).drop_last() =~= entries@.take(i as int));
        }
        if set {
            r.push(e);
        }
        i += 1;
    }
    proof {
        assert(entries@.take(entries.len() as int) =~= entries@);
    }
    r
}

/// What loading a prefab into an entity does.
pub struct PrefabLoadPlan {
    /// Give the entity a default transform (and global transform).
    pub insert_transform: bool,
    /// Give the entity a default visibility.
    pub insert_visibility: bool,
    /// The children spawned by an earlier load, to be despawned, in order.
    pub despawn: Vec<u64>,
    /// Remove the entity's children component.
    pub clear_children: bool,
    /// The scene file to load and spawn as a new child marked as spawned by
    /// the prefab.
    pub scene_path: String,
}

/// Plans loading the prefab of `loader` into an entity that has, or lacks, a
/// transform and a visibility, and the given children, each with whether a
/// previous load spawned it.
pub fn plan_prefab_load(
    loader: &PrefabLoader,
    has_transform: bool,
    has_visibility: bool,
    children: Option<&Vec<(u64, bool)>>,
) -> (plan: PrefabLoadPlan)
    ensures
        plan.insert_transform == !has_transform,
        plan.insert_visibility == !has_visibility,
        plan.clear_children == children is Some,
        plan.despawn@ == (match children {
            Some(c) => flagged(c@),
            None => Seq::empty(),
        }),
        plan.scene_path@ == loader.path@,
{
    let despawn = match children {
        Some(c) => select_flagged(c),
        None => Vec::new(),
    };
    PrefabLoadPlan {
        insert_transform: !has_transform,
        insert_visibility: !has_visibility,
        despawn,
        clear_children: children.is_some(),
        scene_path: loader.path.clone(),
    }
}

/// Whether the entities of a scene instance that became ready are marked as
/// spawned by their prefab: only for a real target entity whose instance is
/// ready.
pub fn should_mark_instance(target_is_placeholder: bool, instance_ready: bool) -> (r: bool)
    ensures
        r == (!target_is_placeholder && instance_ready),
{
    !target_is_placeholder && instance_ready
}

/// The saved children of a prefab that are attached to it again: those that
/// exist, given with whether they do, in order.
pub fn attachable_children(children: &Vec<(u64, bool)>) -> (r: Vec<u64>)
    ensures
        r@ == flagged(children@),
{
    select_flagged(children)
}

/// The prefab components of an entity.
#[derive(Clone, Copy, PartialEq, Eq, Debug, Structural)]
pub struct PrefabFlags {
    pub entity: u64,
    /// It was spawned by a prefab.
    pub auto_child: bool,
    /// It is a prefab of its own.
    pub prefab_marker: bool,
}

/// An entity after conflict resolution: one spawned by a prefab is not a
/// prefab of its own.
pub open spec fn resolved(f: PrefabFlags) -> PrefabFlags {
    PrefabFlags { entity: f.entity, auto_child: f.auto_child, prefab_marker: f.prefab_marker && !f.auto_child }
}

/// Every entity of `s` after conflict resolution.
pub open spec fn resolve_all(s: Seq<PrefabFlags>) -> Seq<PrefabFlags> {
    s.map_values(|f: PrefabFlags| resolved(f))
}

/// The entities that carry both prefab components, in order.
pub open spec fn conflicting(s: Seq<PrefabFlags>) -> Seq<u64>
    decreases s.len(),
{
    if s.len() == 0 {
        Seq::empty()
    } else {
        let rest = conflicting(s.drop_last());
        if s.last().auto_child && s.last().prefab_marker {
            rest.push(s.last().entity)
        } else {
            rest
        }
    }
}

/// Removes the prefab marker from every entity that a prefab spawned; returns
/// the entities it was removed from, in order.
pub fn conflict_resolve(entities: &mut Vec<PrefabFlags>) -> (removed: Vec<u64>)
    ensures
        final(entities)@ == resolve_all(old(entities)@),
        removed@ == conflicting(old(entities)@),
{
    let mut removed: Vec<u64> = Vec::new();
    let mut i: usize = 0;
    while i < entities.len()
        invariant
            i <= entities.len(),
            entities@.len() == old(entities)@.len(),
            forall|j: int| 0 <= j < i ==> entities@[j] == resolved(#[trigger] old(entities)@[j]),
            forall|j: int| i <= j < entities@.len() ==> entities@[j] == old(entities)@[j],
            removed@ == conflicting(old(entities)@.take(i as int)),
        decreases entities.len() - i,
    {
        let f = entities[i];
        proof {
            assert(old(entities)@.take(i + 1).drop_last() =~= old(entities)@.take(i as int));
        }
        if f.auto_child && f.prefab_marker {
            removed.push(f.entity);
            entities.set(i, PrefabFlags { entity: f.entity, auto_child: f.auto_child, prefab_marker: false });
        }
        i += 1;
    }
    proof {
        assert(old(entities)@.take(old(entities)@.len() as int) =~= old(entities)@);
        assert(entities@ =~= resolve_all(old(entities)@));
    }
    removed
}

/// After conflict resolution no entity carries both prefab components, and
/// resolving again changes nothing.
pub proof fn lemma_conflict_resolve_settles(s: Seq<PrefabFlags>)
    ensures
        forall|i: int| 0 <= i < s.len() ==> {
            let f = #[trigger] resolve_all(s)[i];
            !(f.auto_child && f.prefab_marker)
        },
        conflicting(resolve_all(s)) == Seq::<u64>::empty(),
        resolve_all(resolve_all(s))
            == resolve_all(s),
    decreases s.len(),
{
    let r = resolve_all(s);
    assert(resolve_all(r) =~= r);
    if s.len() > 0 {
        lemma_conflict_resolve_settles(s.drop_last());
        assert(r.drop_last() =~= resolve_all(s.drop_last()));
    }
}

} // verus!
