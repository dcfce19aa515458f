use crate::command::{Command, CommandView};
use vstd::prelude::*;

verus! {

/// The immutable description of one service.
///
/// `same` names the peers that are started alongside this service, without
/// waiting for them. `after` names the dependencies that must have started
/// before this service's start command may run.
#[derive(Debug)]
pub struct ServiceDef {
    pub name: String,
    pub same: Vec<String>,
    pub after: Vec<String>,
    pub start_command: Command,
    pub run_command: Command,
}

/// The mathematical value of a [`ServiceDef`].
pub struct ServiceDefView {
    pub name: Seq<char>,
    pub same: Seq<Seq<char>>,
    pub after: Seq<Seq<char>>,
    pub start_command: CommandView,
    pub run_command: CommandView,
}

impl View for ServiceDef {
    type V = ServiceDefView;

    open spec fn view(&self) -> ServiceDefView {
        ServiceDefView {
            name: self.name@,
            same: self.same.deep_view(),
            after: self.after.deep_view(),
            start_command: self.start_command@,
            run_command: self.run_command@,
        }
    }
}

impl DeepView for ServiceDef {
    type V = ServiceDefView;

    open spec fn deep_view(&self) -> ServiceDefView {
        self@
    }
}

/// Some definition of the collection bears `name`.
pub open spec fn defined(definitions: Seq<ServiceDefView>, name: Seq<char>) -> bool {
    exists|i: int| 0 <= i < definitions.len() && (#[trigger] definitions[i]).name == name
}

/// No two definitions of the collection bear the same name.
pub open spec fn names_distinct(definitions: Seq<ServiceDefView>) -> bool {
    forall|i: int, j: int|
        0 <= i < j < definitions.len() ==> (#[trigger] definitions[i]).name
            != (#[trigger] definitions[j]).name
}

/// Every name in `names` is borne by a definition of the collection.
pub open spec fn all_defined(definitions: Seq<ServiceDefView>, names: Seq<Seq<char>>) -> bool {
    forall|k: int| 0 <= k < names.len() ==> defined(definitions, #[trigger] names[k])
}

/// `ranks` gives some of the definitions a rank, a number from 0 on, and the
/// others none, a negative number, in such a way that every dependency of a
/// definition with a rank has a lower rank.
pub open spec fn ranked_after_dependencies(
    definitions: Seq<ServiceDefView>,
    ranks: Seq<int>,
) -> bool {
    &&& ranks.len() == definitions.len()
    &&& forall|i: int, k: int, j: int|
        #![trigger definitions[i].after[k], definitions[j]]
        0 <= i < definitions.len() && 0 <= k < definitions[i].after.len() && 0 <= j
            < definitions.len() && definitions[j].name == definitions[i].after[k] && ranks[i] >= 0
            ==> 0 <= ranks[j] < ranks[i]
}

/// The definition at `index` can be started: it does not depend on itself,
/// neither directly nor through other definitions, and neither does anything
/// it depends on. Such a definition, and all it depends on, can be ranked
/// after their dependencies.
pub open spec fn startable(definitions: Seq<ServiceDefView>, index: int) -> bool {
    exists|ranks: Seq<int>| #[trigger]
        ranked_after_dependencies(definitions, ranks) && ranks[index] >= 0
}

/// The collection can be handed to an orchestrator: every name is non-empty
/// and borne by one definition only, every peer and dependency is itself
/// defined in the collection, and no dependency leads back to where it came
/// from. A service whose dependencies led in a circle would wait for itself
/// for ever.
pub open spec fn valid(definitions: Seq<ServiceDefView>) -> bool {
    &&& names_distinct(definitions)
    &&& forall|i: int|
        0 <= i < definitions.len() ==> {
            &&& (#[trigger] definitions[i]).name.len() > 0
            &&& all_defined(definitions, definitions[i].same)
            &&& all_defined(definitions, definitions[i].after)
        }
    &&& forall|i: int| 0 <= i < definitions.len() ==> #[trigger] startable(definitions, i)
}

impl Clone for ServiceDef {
    fn clone(&self) -> (copy: Self)
        ensures
            copy@ == self@,
    {
        let same = self.same.clone();
        let after = self.after.clone();
        assert(same.deep_view() =~= self.same.deep_view());
        assert(after.deep_view() =~= self.after.deep_view());
        ServiceDef {
            name: self.name.clone(),
            same,
            after,
            start_command: self.start_command.clone(),
            run_command: self.run_command.clone(),
        }
    }
}

/// What can be wrong with a collection of definitions.
#[derive(Clone, Copy, Debug, PartialEq, Eq, Structural)]
pub enum ConfigError {
    /// The definition at `index` has an empty name.
    EmptyName { index: usize },
    /// The definition at `index` bears the same name as the one at `earlier`.
    DuplicateName { index: usize, earlier: usize },
    /// The definition at `index` names, at `position` of `same`, a peer that
    /// is not defined.
    UnknownPeer { index: usize, position: usize },
    /// The definition at `index` names, at `position` of `after`, a
    /// dependency that is not defined.
    UnknownDependency { index: usize, position: usize },
    /// The definition at `index` can never start: it depends on itself,
    /// directly or through others, or on a definition that does.
    DependencyCycle { index: usize },
}

/// The name of the definition at `index` is non-empty and not borne by an
/// earlier definition.
pub open spec fn name_in_order(definitions: Seq<ServiceDefView>, index: int) -> bool {
    &&& definitions[index].name.len() > 0
    &&& forall|j: int| 0 <= j < index
        ==> (#[trigger] definitions[j]).name != definitions[index].name
}

/// The names of the first `count` definitions are in order.
pub open spec fn names_in_order(definitions: Seq<ServiceDefView>, count: int) -> bool {
    forall|i: int| 0 <= i < count ==> #[trigger] name_in_order(definitions, i)
}

/// Every peer and every dependency of the definition at `index` is defined.
pub open spec fn references_in_order(definitions: Seq<ServiceDefView>, index: int) -> bool {
    &&& all_defined(definitions, definitions[index].same)
    &&& all_defined(definitions, definitions[index].after)
}

/// What [`validate`] finds wrong, if `error` is what it reports: the names
/// are looked at first, definition by definition, and an empty name is
/// reported before a repeated one; the references are looked at only when
/// all names are in order, definition by definition, peers before
/// dependencies, each list from its beginning; circles of dependencies are
/// looked for only when all references are in order. The first fault is
/// reported.
pub open spec fn first_fault(definitions: Seq<ServiceDefView>, error: ConfigError) -> bool {
    match error {
        ConfigError::EmptyName { index } => {
            &&& index < definitions.len()
            &&& names_in_order(definitions, index as int)
            &&& definitions[index as int].name.len() == 0
        },
        ConfigError::DuplicateName { index, earlier } => {
            &&& index < definitions.len()
            &&& names_in_order(definitions, index as int)
            &&& definitions[index as int].name.len() > 0
            &&& earlier < index
            &&& definitions[earlier as int].name == definitions[index as int].name
            &&& forall|j: int|
                0 <= j < earlier ==> (#[trigger] definitions[j]).name
                    != definitions[index as int].name
        },
        ConfigError::UnknownPeer { index, position } => {
            &&& names_in_order(definitions, definitions.len() as int)
            &&& index < definitions.len()
            &&& forall|i: int| 0 <= i < index ==> #[trigger] references_in_order(definitions, i)
            &&& position < definitions[index as int].same.len()
            &&& all_defined(definitions, definitions[index as int].same.take(position as int))
            &&& !defined(definitions, definitions[index as int].same[position as int])
        },
        ConfigError::UnknownDependency { index, position } => {
            &&& names_in_order(definitions, definitions.len() as int)
            &&& index < definitions.len()
            &&& forall|i: int| 0 <= i < index ==> #[trigger] references_in_order(definitions, i)
            &&& all_defined(definitions, definitions[index as int].same)
            &&& position < definitions[index as int].after.len()
            &&& all_defined(definitions, definitions[index as int].after.take(position as int))
            &&& !defined(definitions, definitions[index as int].after[position as int])
        },
        ConfigError::DependencyCycle { index } => {
            &&& names_in_order(definitions, definitions.len() as int)
            &&& forall|i: int|
                0 <= i < definitions.len() ==> #[trigger] references_in_order(definitions, i)
            &&& index < definitions.len()
            &&& forall|i: int| 0 <= i < index ==> #[trigger] startable(definitions, i)
            &&& !startable(definitions, index as int)
        },
    }
}

/// A collection is valid exactly if the names of all its definitions are in
/// order, so are the references of each, and each can be started.
pub proof fn lemma_valid_in_order(definitions: Seq<ServiceDefView>)
    ensures
        valid(definitions) <==> {
            &&& names_in_order(definitions, definitions.len() as int)
            &&& forall|i: int|
                0 <= i < definitions.len() ==> #[trigger] references_in_order(definitions, i)
            &&& forall|i: int| 0 <= i < definitions.len() ==> #[trigger] startable(definitions, i)
        },
{
    if valid(definitions) {
        assert forall|i: int| 0 <= i < definitions.len() implies #[trigger] name_in_order(
            definitions,
            i,
        ) by {
            assert(definitions[i].name.len() > 0);
        }
        assert forall|i: int| 0 <= i < definitions.len() implies #[trigger] references_in_order(
            definitions,
            i,
        ) by {
            assert(definitions[i].name.len() > 0);
        }
    }
    if names_in_order(definitions, definitions.len() as int) && (forall|i: int|
        0 <= i < definitions.len() ==> #[trigger] references_in_order(definitions, i)) {
        assert forall|i: int, j: int| 0 <= i < j < definitions.len() implies (
        #[trigger] definitions[i]).name != (#[trigger] definitions[j]).name by {
            assert(name_in_order(definitions, j));
        }
        assert forall|i: int| 0 <= i < definitions.len() implies {
            &&& (#[trigger] definitions[i]).name.len() > 0
            &&& all_defined(definitions, definitions[i].same)
            &&& all_defined(definitions, definitions[i].after)
        } by {
            assert(name_in_order(definitions, i));
            assert(references_in_order(definitions, i));
        }
    }
}

/// A fault that [`validate`] reports makes the collection invalid.
pub proof fn lemma_fault_is_invalid(definitions: Seq<ServiceDefView>, error: ConfigError)
    requires
        first_fault(definitions, error),
    ensures
        !valid(definitions),
{
    lemma_valid_in_order(definitions);
    match error {
        ConfigError::EmptyName { index } => {
            assert(!name_in_order(definitions, index as int));
        },
        ConfigError::DuplicateName { index, earlier } => {
            assert(definitions[earlier as int].name == definitions[index as int].name);
            assert(!name_in_order(definitions, index as int));
        },
        ConfigError::UnknownPeer { index, position } => {
            let same = definitions[index as int].same;
            assert(!defined(definitions, same[position as int]));
            assert(!references_in_order(definitions, index as int));
        },
        ConfigError::UnknownDependency { index, position } => {
            let after = definitions[index as int].after;
            assert(!defined(definitions, after[position as int]));
            assert(!references_in_order(definitions, index as int));
        },
        ConfigError::DependencyCycle { index } => {
            assert(!startable(definitions, index as int));
        },
    }
}

/// Every dependency of the definition at `index` bears a mark.
pub open spec fn dependencies_marked(
    definitions: Seq<ServiceDefView>,
    marks: Seq<bool>,
    index: int,
) -> bool {
    forall|k: int, j: int|
        #![trigger definitions[index].after[k], definitions[j]]
        0 <= k < definitions[index].after.len() && 0 <= j < definitions.len()
            && definitions[j].name == definitions[index].after[k] ==> marks[j]
}

/// Where every definition without a mark has a dependency without a mark,
/// no definition without a mark can be given a rank.
proof fn lemma_unmarked_is_unranked(
    definitions: Seq<ServiceDefView>,
    marks: Seq<bool>,
    ranks: Seq<int>,
    index: int,
)
    requires
        marks.len() == definitions.len(),
        forall|i: int|
            0 <= i < definitions.len() && !marks[i] ==> !#[trigger] dependencies_marked(
                definitions,
                marks,
                i,
            ),
        ranked_after_dependencies(definitions, ranks),
        0 <= index < definitions.len(),
        !marks[index],
    ensures
        ranks[index] < 0,
    decreases ranks[index],
{
    if ranks[index] >= 0 {
        assert(!dependencies_marked(definitions, marks, index));
        let (k, j) = choose|k: int, j: int|
            #![trigger definitions[index].after[k], definitions[j]]
            0 <= k < definitions[index].after.len() && 0 <= j < definitions.len()
                && definitions[j].name == definitions[index].after[k] && !marks[j];
        assert(0 <= ranks[j] < ranks[index]);
        lemma_unmarked_is_unranked(definitions, marks, ranks, j);
    }
}

/// The first definition that bears `name`, if there is one.
fn lookup(definitions: &Vec<ServiceDef>, name: &String) -> (found: Option<usize>)
    ensures
        match found {
            Some(i) => {
                &&& i < definitions@.len()
                &&& definitions.deep_view()[i as int].name == name@
                &&& forall|j: int| 0 <= j < i
                    ==> (#[trigger] definitions.deep_view()[j]).name != name@
            },
            None => !defined(definitions.deep_view(), name@),
        },
{
    let mut i: usize = 0;
    while i < definitions.len()
        invariant
            i <= definitions@.len(),
            forall|j: int| 0 <= j < i ==> (#[trigger] definitions.deep_view()[j]).name != name@,
        decreases definitions@.len() - i,
    {
        if definitions[i].name == *name {
            return Some(i);
        }
        i = i + 1;
    }
    None
}

/// The first position of `names` whose name no definition bears, if there is
/// one.
fn first_undefined(definitions: &Vec<ServiceDef>, names: &Vec<String>) -> (found: Option<usize>)
    ensures
        match found {
            Some(k) => {
                &&& k < names@.len()
                &&& all_defined(definitions.deep_view(), names.deep_view().take(k as int))
                &&& !defined(definitions.deep_view(), names.deep_view()[k as int])
            },
            None => all_defined(definitions.deep_view(), names.deep_view()),
        },
{
    let mut k: usize = 0;
    while k < names.len()
        invariant
            k <= names@.len(),
            all_defined(definitions.deep_view(), names.deep_view().take(k as int)),
        decreases names@.len() - k,
    {
        if lookup(definitions, &names[k]).is_none() {
            return Some(k);
        }
        assert forall|m: int| 0 <= m < k + 1 implies defined(
            definitions.deep_view(),
            #[trigger] names.deep_view().take(k + 1)[m],
        ) by {
            if m < k {
                assert(names.deep_view().take(k + 1)[m] == names.deep_view().take(k as int)[m]);
            }
        }
        k = k + 1;
    }
    assert(names.deep_view().take(k as int) =~= names.deep_view());
    None
}

/// `path` leads from definition to definition along the dependencies: every
/// definition on it but the last names the next one in its `after`.
pub open spec fn follows_dependencies(definitions: Seq<ServiceDefView>, path: Seq<int>) -> bool {
    &&& forall|p: int| 0 <= p < path.len() ==> 0 <= #[trigger] path[p] < definitions.len()
    &&& forall|p: int|
        0 <= p < path.len() - 1 ==> exists|k: int|
            0 <= k < definitions[#[trigger] path[p]].after.len()
                && #[trigger] definitions[path[p]].after[k] == definitions[path[p + 1]].name
}

/// Along a path of dependencies that begins at a definition with a rank,
/// the ranks fall by at least one at every step.
proof fn lemma_ranks_fall(
    definitions: Seq<ServiceDefView>,
    ranks: Seq<int>,
    path: Seq<int>,
    p: int,
)
    requires
        follows_dependencies(definitions, path),
        ranked_after_dependencies(definitions, ranks),
        0 <= p < path.len(),
        ranks[path[0]] >= 0,
    ensures
        0 <= ranks[path[p]] <= ranks[path[0]] - p,
    decreases p,
{
    if p > 0 {
        lemma_ranks_fall(definitions, ranks, path, p - 1);
        let from = path[p - 1];
        let to = path[p];
        let k = choose|k: int|
            0 <= k < definitions[from].after.len() && #[trigger] definitions[from].after[k]
                == definitions[path[p - 1 + 1]].name;
        assert(definitions[to].name == definitions[from].after[k]);
    }
}

/// A definition from which the dependencies lead back to itself can never
/// start.
pub proof fn lemma_circle_cannot_start(definitions: Seq<ServiceDefView>, path: Seq<int>)
    requires
        follows_dependencies(definitions, path),
        path.len() >= 2,
        path.first() == path.last(),
    ensures
        !startable(definitions, path[0]),
{
    if startable(definitions, path[0]) {
        let ranks = choose|ranks: Seq<int>| #[trigger]
            ranked_after_dependencies(definitions, ranks) && ranks[path[0]] >= 0;
        lemma_ranks_fall(definitions, ranks, path, path.len() - 1);
    }
}

/// A definition that depends on one that can never start can never start
/// either.
pub proof fn lemma_dependent_cannot_start(
    definitions: Seq<ServiceDefView>,
    index: int,
    position: int,
    dependency: int,
)
    requires
        0 <= index < definitions.len(),
        0 <= position < definitions[index].after.len(),
        0 <= dependency < definitions.len(),
        definitions[dependency].name == definitions[index].after[position],
        !startable(definitions, dependency),
    ensures
        !startable(definitions, index),
{
    if startable(definitions, index) {
        let ranks = choose|ranks: Seq<int>| #[trigger]
            ranked_after_dependencies(definitions, ranks) && ranks[index] >= 0;
        assert(definitions[dependency].name == definitions[index].after[position]);
        assert(ranked_after_dependencies(definitions, ranks) && ranks[dependency] >= 0);
    }
}

/// Whether every dependency of the definition at `index` bears a mark.
fn dependencies_ready(definitions: &Vec<ServiceDef>, marks: &Vec<bool>, index: usize) -> (all: bool)
    requires
        names_distinct(definitions.deep_view()),
        marks@.len() == definitions@.len(),
        index < definitions@.len(),
    ensures
        all == dependencies_marked(definitions.deep_view(), marks@, index as int),
{
    let ghost views = definitions.deep_view();
    let after = &definitions[index].after;
    let mut k: usize = 0;
    while k < after.len()
        invariant
            k <= after@.len(),
            views == definitions.deep_view(),
            names_distinct(views),
            marks@.len() == definitions@.len(),
            index < definitions@.len(),
            after.deep_view() == views[index as int].after,
            forall|m: int, j: int|
                #![trigger views[index as int].after[m], views[j]]
                0 <= m < k && 0 <= j < views.len() && views[j].name == views[index as int].after[m]
                    ==> marks@[j],
        decreases after@.len() - k,
    {
        match lookup(definitions, &after[k]) {
            Some(j) => {
                assert(views[j as int].name == views[index as int].after[k as int]);
                if !marks[j] {
                    return false;
                }
                assert forall|other: int|
                    0 <= other < views.len() && (#[trigger] views[other]).name
                        == views[index as int].after[k as int] implies marks@[other] by {
                    assert(views[other].name == views[j as int].name);
                    assert(other == j);
                }
            },
            None => {
                assert forall|other: int| 0 <= other < views.len() implies (
                #[trigger] views[other]).name != views[index as int].after[k as int] by {}
            },
        }
        k = k + 1;
    }
    true
}

/// The first definition that can never start, if there is one.
fn first_unstartable(definitions: &Vec<ServiceDef>) -> (found: Option<usize>)
    requires
        names_distinct(definitions.deep_view()),
    ensures
        match found {
            Some(index) => {
                &&& index < definitions@.len()
                &&& !startable(definitions.deep_view(), index as int)
                &&& forall|i: int| 0 <= i < index
                    ==> #[trigger] startable(definitions.deep_view(), i)
            },
            None => forall|i: int|
                0 <= i < definitions@.len() ==> #[trigger] startable(definitions.deep_view(), i),
        },
{
    let ghost views = definitions.deep_view();
    let count = definitions.len();
    let mut ready: Vec<bool> = Vec::new();
    while ready.len() < count
        invariant
            ready@.len() <= count,
            forall|i: int| 0 <= i < ready@.len() ==> !ready@[i],
        decreases count - ready@.len(),
    {
        ready.push(false);
    }
    let ghost mut ranks: Seq<int> = Seq::new(count as nat, |i: int| -1);
    let ghost mut next_rank: int = 0;
    let ghost mut unready: Set<int> = vstd::set_lib::set_int_range(0, count as int);
    proof {
        vstd::set_lib::lemma_int_range(0, count as int);
    }
    let mut progress = true;
    while progress
        invariant
            count == definitions@.len(),
            views == definitions.deep_view(),
            names_distinct(views),
            ready@.len() == count,
            ranked_after_dependencies(views, ranks),
            forall|i: int| 0 <= i < count ==> (ready@[i] <==> ranks[i] >= 0),
            forall|i: int| 0 <= i < count ==> ranks[i] < next_rank,
            0 <= next_rank,
            unready.finite(),
            forall|i: int| unready.contains(i) <==> (0 <= i < count && !ready@[i]),
            !progress ==> forall|i: int|
                0 <= i < count && !ready@[i] ==> !#[trigger] dependencies_marked(views, ready@, i),
        decreases
                unready.len() + (if progress {
                    1nat
                } else {
                    0nat
                }),
    {
        progress = false;
        let ghost at_start = unready;
        let mut i: usize = 0;
        while i < count
            invariant
                i <= count,
                count == definitions@.len(),
                views == definitions.deep_view(),
                names_distinct(views),
                ready@.len() == count,
                ranked_after_dependencies(views, ranks),
                forall|j: int| 0 <= j < count ==> (ready@[j] <==> ranks[j] >= 0),
                forall|j: int| 0 <= j < count ==> ranks[j] < next_rank,
                0 <= next_rank,
                unready.finite(),
                forall|j: int| unready.contains(j) <==> (0 <= j < count && !ready@[j]),
                progress ==> unready.len() < at_start.len(),
                !progress ==> unready == at_start,
                !progress ==> forall|j: int|
                    0 <= j < i && !ready@[j] ==> !#[trigger] dependencies_marked(views, ready@, j),
            decreases count - i,
        {
            if !ready[i] && dependencies_ready(definitions, &ready, i) {
                let ghost before = ready@;
                let ghost earlier = ranks;
                ready.set(i, true);
                proof {
                    broadcast use vstd::set::group_set_axioms;

                    ranks = earlier.update(i as int, next_rank);
                    next_rank = next_rank + 1;
                    assert(unready.contains(i as int));
                    unready = unready.remove(i as int);
                    assert forall|a: int, k: int, b: int|
                        #![trigger views[a].after[k], views[b]]
                        0 <= a < views.len() && 0 <= k < views[a].after.len() && 0 <= b
                            < views.len() && views[b].name == views[a].after[k] && ranks[a]
                            >= 0 implies 0 <= ranks[b] < ranks[a] by {
                        if a == i {
                            assert(before[b]);
                        } else {
                            assert(0 <= earlier[b] < earlier[a]);
                        }
                    }
                }
                progress = true;
            }
            i = i + 1;
        }
    }
    let mut i: usize = 0;
    while i < count
        invariant
            i <= count,
            count == definitions@.len(),
            views == definitions.deep_view(),
            ready@.len() == count,
            ranked_after_dependencies(views, ranks),
            forall|j: int| 0 <= j < count ==> (ready@[j] <==> ranks[j] >= 0),
            forall|j: int|
                0 <= j < count && !ready@[j] ==> !#[trigger] dependencies_marked(views, ready@, j),
            forall|j: int| 0 <= j < i ==> ready@[j],
        decreases count - i,
    {
        if !ready[i] {
            proof {
                assert forall|j: int| 0 <= j < i implies #[trigger] startable(views, j) by {
                    assert(ready@[j]);
                    assert(ready@[j]);
            assert(ranked_after_dependencies(views, ranks) && ranks[j] >= 0);
                }
                if startable(views, i as int) {
                    let other = choose|other: Seq<int>| #[trigger]
                        ranked_after_dependencies(views, other) && other[i as int] >= 0;
                    lemma_unmarked_is_unranked(views, ready@, other, i as int);
                }
            }
            return Some(i);
        }
        i = i + 1;
    }
    proof {
        assert forall|j: int| 0 <= j < count implies #[trigger] startable(views, j) by {
            assert(ready@[j]);
            assert(ranked_after_dependencies(views, ranks) && ranks[j] >= 0);
        }
    }
    None
}

/// Looks for what keeps a collection of definitions from being handed to an
/// orchestrator. Returns `Ok` exactly if the collection is valid, and
/// otherwise the first fault in the order that [`first_fault`] describes.
pub fn validate(definitions: &Vec<ServiceDef>) -> (result: Result<(), ConfigError>)
    ensures
        match result {
            Ok(()) => valid(definitions.deep_view()),
            Err(error) => first_fault(definitions.deep_view(), error) && !valid(
                definitions.deep_view(),
            ),
        },
{
    let ghost views = definitions.deep_view();
    let mut i: usize = 0;
    while i < definitions.len()
        invariant
            i <= definitions@.len(),
            views == definitions.deep_view(),
            names_in_order(views, i as int),
        decreases definitions@.len() - i,
    {
        if definitions[i].name.as_str().is_empty() {
            let error = ConfigError::EmptyName { index: i };
            proof {
                lemma_fault_is_invalid(views, error);
            }
            return Err(error);
        }
        match lookup(definitions, &definitions[i].name) {
            Some(earlier) => {
                if earlier < i {
                    let error = ConfigError::DuplicateName { index: i, earlier };
                    proof {
                        lemma_fault_is_invalid(views, error);
                    }
                    return Err(error);
                }
            },
            None => {
                assert(views[i as int].name == definitions@[i as int].name@);
            },
        }
        assert(name_in_order(views, i as int));
        i = i + 1;
    }
    let mut i: usize = 0;
    while i < definitions.len()
        invariant
            i <= definitions@.len(),
            views == definitions.deep_view(),
            names_in_order(views, views.len() as int),
            forall|j: int| 0 <= j < i ==> #[trigger] references_in_order(views, j),
        decreases definitions@.len() - i,
    {
        match first_undefined(definitions, &definitions[i].same) {
            Some(position) => {
                let error = ConfigError::UnknownPeer { index: i, position };
                proof {
                    lemma_fault_is_invalid(views, error);
                }
                return Err(error);
            },
            None => {},
        }
        match first_undefined(definitions, &definitions[i].after) {
            Some(position) => {
                let error = ConfigError::UnknownDependency { index: i, position };
                proof {
                    lemma_fault_is_invalid(views, error);
                }
                return Err(error);
            },
            None => {},
        }
        assert(references_in_order(views, i as int));
        i = i + 1;
    }
    proof {
        assert forall|a: int, b: int| 0 <= a < b < views.len()
            implies (#[trigger] views[a]).name != (
        #[trigger] views[b]).name by {
            assert(name_in_order(views, b));
        }
    }
    match first_unstartable(definitions) {
        Some(index) => {
            let error = ConfigError::DependencyCycle { index };
            proof {
                lemma_fault_is_invalid(views, error);
            }
            return Err(error);
        },
        None => {},
    }
    proof {
        lemma_valid_in_order(views);
    }
    Ok(())
}

} // verus!
