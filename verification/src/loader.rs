//! Loading of encoded files into a pool, with the files that they import.

use crate::adjacency::Node;
use crate::dynamic::Contents;
use crate::error::Error;
use crate::imports::name_in;
use crate::pool::{
    add_lowered_file, declares, file_declares, file_header, has_name, is_added, read_header,
    HeaderModel, Pool,
};
use crate::reply::{file_views, files_of, ReflectionReply};
use crate::topology::{
    law_a_node_is_ready_once_its_dependencies_are_done, law_acyclic_graph_is_never_stuck,
    law_dependencies_come_first, law_pending_is_finite, law_sorting_is_finished_once_all_are_done,
    Graph, SimpleTopoSort, SimpleTopoSortIter,
};
use vstd::hash_map::StringHashMap;
use vstd::prelude::*;

verus! {

/// One batch of files that is being loaded.
#[verifier::ext_equal]
pub struct BatchModel {
    /// Which file imports which.
    pub graph: Graph<Seq<char>>,
    /// The names that have been dealt with.
    pub done: Seq<Seq<char>>,
    /// The encoded files of the batch that have not been added yet, by their names.
    pub files: Map<Seq<char>, Seq<u8>>,
}

/// A batch of encoded files, before any of them is dealt with. Those that cannot be decoded are
/// left out, and of several with one name the last one counts.
pub open spec fn batch(files: Seq<Seq<u8>>) -> BatchModel
    decreases files.len(),
{
    if files.len() == 0 {
        BatchModel {
            graph: Graph { nodes: Set::empty(), edges: Set::empty() },
            done: Seq::empty(),
            files: Map::empty(),
        }
    } else {
        let before = batch(files.drop_last());
        match file_header(files.last()) {
            Some(header) => BatchModel {
                graph: before.graph.with(header.name, header.dependencies),
                files: before.files.insert(header.name, files.last()),
                ..before
            },
            None => before,
        }
    }
}

struct Batch {
    iter: SimpleTopoSortIter<String>,
    files: StringHashMap<Vec<u8>>,
}

/// Whether the files of a batch that have not been added are those that have not been dealt with,
/// each by its own name.
pub open spec fn keeps_count(batch: BatchModel) -> bool {
    &&& forall|name: Seq<char>| #[trigger]
        batch.files.contains_key(name) <==> batch.graph.nodes.contains(name)
            && !batch.done.contains(name)
    &&& forall|name: Seq<char>| #[trigger]
        batch.files.contains_key(name) ==> match file_header(batch.files[name]) {
            Some(header) => header.name == name,
            None => false,
        }
}

/// A new batch has all of its files still to deal with.
proof fn lemma_batch_keeps_count(files: Seq<Seq<u8>>)
    ensures
        keeps_count(batch(files)),
        batch(files).done == Seq::<Seq<char>>::empty(),
    decreases files.len(),
{
    if files.len() > 0 {
        lemma_batch_keeps_count(files.drop_last());
    }
}

/// Dealing with a file takes it off the count.
proof fn lemma_dealt_with_keeps_count(batch: BatchModel, name: Seq<char>)
    requires
        keeps_count(batch),
    ensures
        keeps_count(dealt_with(batch, name)),
{
    let more = batch.done.push(name);
    assert(more[batch.done.len() as int] == name);
    assert forall|x: Seq<char>| more.contains(x) <==> batch.done.contains(x) || x == name by {
        if batch.done.contains(x) {
            let k = choose|k: int| 0 <= k < batch.done.len() && batch.done[k] == x;
            assert(more[k] == x);
        }
    }
}

impl Batch {
    spec fn model(self) -> BatchModel {
        BatchModel {
            graph: self.iter.graph(),
            done: self.iter.yielded(),
            files: self.files@.map_values(|file: Vec<u8>| file@),
        }
    }

    fn new(files: Vec<Vec<u8>>) -> (r: Batch)
        ensures
            r.iter.wf(),
            r.model() == batch(file_views(files@)),
    {
        let ghost all = file_views(files@);
        let mut sort: SimpleTopoSort<String> = SimpleTopoSort::new();
        let mut by_name: StringHashMap<Vec<u8>> = StringHashMap::new();
        let mut i: usize = 0;
        assert(by_name@.map_values(|file: Vec<u8>| file@) =~= Map::<Seq<char>, Seq<u8>>::empty());
        while i < files.len()
            invariant
                i <= files@.len(),
                all == file_views(files@),
                sort.wf(),
                sort@ == batch(all.take(i as int)).graph,
                by_name@.map_values(|file: Vec<u8>| file@) == batch(all.take(i as int)).files,
                batch(all.take(i as int)).done == Seq::<Seq<char>>::empty(),
            decreases files@.len() - i,
        {
            proof {
                assert(all.take(i + 1).drop_last() =~= all.take(i as int));
                assert(all.take(i + 1).last() == files@[i as int]@);
            }
            if let Ok(header) = read_header(files[i].as_slice()) {
                let ghost before = by_name@;
                let file: Vec<u8> = files[i].clone();
                sort.insert(header.name.duplicate(), header.dependencies);
                by_name.insert(header.name, file);
                assert(by_name@.map_values(|file: Vec<u8>| file@) =~= before.map_values(
                    |file: Vec<u8>| file@,
                ).insert(header.name@, file@));
            }
            i += 1;
        }
        assert(all.take(i as int) =~= all);
        Batch { iter: sort.into_iter(), files: by_name }
    }

    /// Takes the file of a name out.
    fn take(&mut self, name: &String) -> (r: Option<Vec<u8>>)
        ensures
            final(self).iter == old(self).iter,
            final(self).model().files == old(self).model().files.remove(name@),
            match r {
                Some(file) => old(self).model().files.contains_key(name@)
                    && old(self).model().files[name@] == file@,
                None => !old(self).model().files.contains_key(name@),
            },
    {
        let file: Option<Vec<u8>> = match self.files.get(name.as_str()) {
            Some(file) => Some(file.clone()),
            None => None,
        };
        self.files.remove(name.as_str());
        assert(self.model().files =~= old(self).model().files.remove(name@));
        file
    }
}

/// One step of a [`PoolLoader`].
pub enum Step {
    /// Nothing is left to do.
    Done,
    /// A batch is through.
    BatchDone,
    /// The files that are left of a batch import one another in a cycle. They are given up.
    Cycle,
    /// A file that is not in the batch, and that the pool has.
    Present(String),
    /// A file of the batch, with what came of adding it.
    Added(String, Result<(), Error>),
    /// A file that neither the batch nor the pool has: it is to be asked for, and the reply to be
    /// handed to [`PoolLoader::on_reply`].
    Fetch(String),
}

/// Adds encoded files to a pool, each after the files that it imports. Files that are imported,
/// but neither given nor in the pool, are asked for, and those that come are loaded before the
/// loader goes on.
pub struct PoolLoader {
    batches: Vec<Batch>,
}

impl View for PoolLoader {
    type V = Seq<BatchModel>;

    /// The batches that are being loaded, the innermost one last.
    closed spec fn view(&self) -> Seq<BatchModel> {
        Seq::new(self.batches@.len(), |i: int| self.batches@[i].model())
    }
}

/// A batch after the file of a name has been dealt with.
pub open spec fn dealt_with(batch: BatchModel, name: Seq<char>) -> BatchModel {
    BatchModel { done: batch.done.push(name), files: batch.files.remove(name), ..batch }
}

impl PoolLoader {
    /// Each batch is being sorted, and keeps count of its files.
    pub closed spec fn wf(&self) -> bool {
        forall|i: int|
            0 <= i < self.batches@.len() ==> (#[trigger] self.batches@[i]).iter.wf() && keeps_count(
                self.batches@[i].model(),
            )
    }

    /// A loader that has nothing to load.
    pub fn idle() -> (r: PoolLoader)
        ensures
            r.wf(),
            r@ == Seq::<BatchModel>::empty(),
    {
        let r = PoolLoader { batches: Vec::new() };
        assert(r@ =~= Seq::<BatchModel>::empty());
        r
    }

    /// Whether nothing is left to load.
    pub fn is_idle(&self) -> (r: bool)
        ensures
            r == (self@.len() == 0),
    {
        self.batches.len() == 0
    }

    /// A loader for a batch of encoded files.
    pub fn new(files: Vec<Vec<u8>>) -> (r: PoolLoader)
        ensures
            r.wf(),
            r@ == seq![batch(file_views(files@))],
            r@.len() == 1,
            forall|i: int|
                0 <= i < files@.len() && file_header((#[trigger] files@[i])@) is Some
                    ==> r@[0].files.contains_key(file_header(files@[i]@)->0.name),
    {
        proof {
            lemma_batch_keeps_count(file_views(files@));
            assert forall|i: int|
                0 <= i < files@.len() && file_header((#[trigger] files@[i])@) is Some implies batch(
                file_views(files@),
            ).files.contains_key(file_header(files@[i]@)->0.name) by {
                law_files_are_in_their_batch(file_views(files@), i);
            }
        }
        let mut batches: Vec<Batch> = Vec::new();
        batches.push(Batch::new(files));
        let r = PoolLoader { batches };
        assert(r@ =~= seq![batch(file_views(files@))]);
        r
    }

    /// Deals with one file of the innermost batch: any one whose imports have all been dealt with.
    pub fn step(&mut self, pool: &mut Pool) -> (r: Step)
        requires
            old(self).wf(),
            old(pool).wf(),
        ensures
            final(self).wf(),
            final(pool).wf(),
            is_step(old(self)@, old(pool)@, r, final(self)@, final(pool)@),
    {
        match self.batches.pop() {
            None => {
                assert(self@ =~= old(self)@);
                Step::Done
            },
            Some(innermost) => {
                let ghost before = old(self)@;
                let ghost model = innermost.model();
                assert(model == before.last());
                assert(self@ =~= before.drop_last());
                let mut innermost: Batch = innermost;
                match innermost.iter.next() {
                    None => Step::BatchDone,
                    Some(Err(_)) => Step::Cycle,
                    Some(Ok(name)) => {
                        let file: Option<Vec<u8>> = innermost.take(&name);
                        assert(innermost.model() =~= dealt_with(model, name@));
                        proof {
                            lemma_dealt_with_keeps_count(model, name@);
                        }
                        self.batches.push(innermost);
                        assert(self@ =~= before.drop_last().push(dealt_with(model, name@)));
                        match file {
                            Some(file) => {
                                let added: Result<(), Error> = add_lowered_file(
                                    pool,
                                    file.as_slice(),
                                );
                                Step::Added(name, added)
                            },
                            None => if pool.has_file(name.as_str()) {
                                Step::Present(name)
                            } else {
                                Step::Fetch(name)
                            },
                        }
                    },
                }
            },
        }
    }

    /// Takes the reply to the request for a file that [`PoolLoader::step`] asked for, or `None`
    /// where there was none. Encoded files become the innermost batch; without them the file is
    /// given up.
    pub fn on_reply(&mut self, reply: Option<ReflectionReply>)
        requires
            old(self).wf(),
        ensures
            final(self).wf(),
            final(self)@ == match files_of(reply) {
                Some(files) => old(self)@.push(batch(files)),
                None => old(self)@,
            },
            reply matches Some(ReflectionReply::FileDescriptors(files)) ==> final(self)@.len()
                == old(self)@.len() + 1 && final(self)@.drop_last() == old(self)@ && forall|i: int|
                0 <= i < files@.len() && file_header((#[trigger] files@[i])@) is Some
                    ==> final(self)@.last().files.contains_key(file_header(files@[i]@)->0.name),
            !(reply matches Some(ReflectionReply::FileDescriptors(_))) ==> final(self)@
                == old(self)@,
    {
        match reply {
            Some(ReflectionReply::FileDescriptors(files)) => {
                proof {
                    lemma_batch_keeps_count(file_views(files@));
                }
                self.batches.push(Batch::new(files));
                assert(self@ =~= old(self)@.push(batch(file_views(files@))));
                assert(self@.drop_last() =~= old(self)@);
                assert forall|i: int|
                    0 <= i < files@.len() && file_header((#[trigger] files@[i])@) is Some implies
                    self@.last().files.contains_key(file_header(files@[i]@)->0.name) by {
                    law_files_are_in_their_batch(file_views(files@), i);
                }
            },
            _ => {},
        }
    }
}

/// Whether a file of the innermost batch may come next.
pub open spec fn is_next(batches: Seq<BatchModel>, name: Seq<char>) -> bool {
    batches.len() > 0 && batches.last().graph.is_ready(batches.last().done, name)
}

/// Whether a step takes a loader and a pool from one state to another.
pub open spec fn is_step(
    before: Seq<BatchModel>,
    pool_before: Seq<Contents>,
    step: Step,
    after: Seq<BatchModel>,
    pool_after: Seq<Contents>,
) -> bool {
    &&& match step {
        Step::Done => before.len() == 0,
        Step::BatchDone => before.len() > 0 && before.last().graph.is_finished(before.last().done),
        Step::Cycle => before.len() > 0 && !before.last().graph.is_finished(before.last().done)
            && forall|x: Seq<char>| !before.last().graph.is_ready(before.last().done, x),
        Step::Present(name) => is_next(before, name@) && !before.last().files.contains_key(name@)
            && has_name(pool_before, name@),
        Step::Added(name, r) => is_next(before, name@) && before.last().files.contains_key(name@)
            && is_added(pool_before, before.last().files[name@], pool_after, r) && (r is Ok
            ==> has_name(pool_after, name@)),
        Step::Fetch(name) => is_next(before, name@) && !before.last().files.contains_key(name@)
            && !has_name(pool_before, name@),
    }
    &&& after == match step {
        Step::Done => before,
        Step::BatchDone | Step::Cycle => before.drop_last(),
        Step::Present(name) | Step::Added(name, _) | Step::Fetch(name) => before.drop_last().push(
            dealt_with(before.last(), name@),
        ),
    }
    &&& !(step is Added) ==> pool_after == pool_before
}

/// Each file of a batch is dealt with once, and after the files that it imports.
pub proof fn law_imports_are_dealt_with_first(loader: PoolLoader, i: int)
    requires
        loader.wf(),
        0 <= i < loader@.len(),
    ensures
        loader@[i].graph.is_order(loader@[i].done),
{
    law_dependencies_come_first(loader.batches@[i].iter);
}

/// When a batch is through, every one of its files has been dealt with.
pub proof fn law_no_file_is_left_over(loader: PoolLoader, i: int)
    requires
        loader.wf(),
        0 <= i < loader@.len(),
        loader@[i].graph.is_finished(loader@[i].done),
    ensures
        loader@[i].files == Map::<Seq<char>, Seq<u8>>::empty(),
{
    let batch = loader@[i];
    assert(keeps_count(loader.batches@[i].model()));
    assert forall|name: Seq<char>| !batch.files.contains_key(name) by {
        if batch.files.contains_key(name) {
            assert(batch.graph.mentions(name));
        }
    }
    assert(batch.files =~= Map::<Seq<char>, Seq<u8>>::empty());
}

/// Every file that can be decoded is a file of its batch, by its name.
pub proof fn law_files_are_in_their_batch(files: Seq<Seq<u8>>, i: int)
    requires
        0 <= i < files.len(),
        file_header(files[i]) is Some,
    ensures
        batch(files).files.contains_key(file_header(files[i])->0.name),
        batch(files).graph.nodes.contains(file_header(files[i])->0.name),
    decreases files.len(),
{
    if i < files.len() - 1 {
        assert(files.drop_last()[i] == files[i]);
        law_files_are_in_their_batch(files.drop_last(), i);
    }
}

/// What is left to do of a batch.
pub open spec fn left(batch: BatchModel) -> Set<Seq<char>> {
    Set::new(|name: Seq<char>| batch.graph.mentions(name) && !batch.done.contains(name))
}

/// Only so much is left to do of each batch.
pub proof fn law_batches_are_finite(loader: PoolLoader, i: int)
    requires
        loader.wf(),
        0 <= i < loader@.len(),
    ensures
        left(loader@[i]).finite(),
{
    law_pending_is_finite(loader.batches@[i].iter);
    assert(left(loader@[i]) =~= loader.batches@[i].iter.pending());
}

/// Every file that is dealt with leaves less to do of its batch.
pub proof fn law_every_step_leaves_less_to_do(batches: Seq<BatchModel>, name: Seq<char>)
    requires
        is_next(batches, name),
        left(batches.last()).finite(),
    ensures
        left(dealt_with(batches.last(), name)).len() < left(batches.last()).len(),
{
    let batch = batches.last();
    let more = batch.done.push(name);
    assert(more[batch.done.len() as int] == name);
    assert forall|x: Seq<char>| more.contains(x) <==> batch.done.contains(x) || x == name by {
        if batch.done.contains(x) {
            let k = choose|k: int| 0 <= k < batch.done.len() && batch.done[k] == x;
            assert(more[k] == x);
        }
    }
    assert(left(dealt_with(batch, name)) =~= left(batch).remove(name));
}

/// How much is left to do of all batches.
pub open spec fn weight(batches: Seq<BatchModel>) -> nat
    decreases batches.len(),
{
    if batches.len() == 0 {
        0
    } else {
        weight(batches.drop_last()) + left(batches.last()).len() + 1
    }
}

/// Every step, until the last one, leaves less to do of all batches: loading comes to an end, as
/// long as replies bring no more files.
pub proof fn law_loading_comes_to_an_end(
    before: Seq<BatchModel>,
    pool_before: Seq<Contents>,
    step: Step,
    after: Seq<BatchModel>,
    pool_after: Seq<Contents>,
)
    requires
        is_step(before, pool_before, step, after, pool_after),
        !(step is Done),
        left(before.last()).finite(),
    ensures
        weight(after) < weight(before),
{
    match step {
        Step::Present(name) | Step::Added(name, _) | Step::Fetch(name) => {
            law_every_step_leaves_less_to_do(before, name@);
            assert(after.drop_last() =~= before.drop_last());
        },
        _ => {},
    }
}

/// Files whose imports can be ranked below them are dealt with to the last one: no step gives up
/// on them.
pub proof fn law_acyclic_imports_are_never_given_up(
    before: Seq<BatchModel>,
    pool_before: Seq<Contents>,
    step: Step,
    after: Seq<BatchModel>,
    pool_after: Seq<Contents>,
    rank: spec_fn(Seq<char>) -> nat,
)
    requires
        is_step(before, pool_before, step, after, pool_after),
        before.len() > 0,
        forall|n: Seq<char>, d: Seq<char>| #[trigger]
            before.last().graph.edges.contains((n, d)) ==> rank(d) < rank(n),
    ensures
        !(step is Cycle),
{
    if step is Cycle {
        law_acyclic_graph_is_never_stuck(before.last().graph, before.last().done, rank);
    }
}

/// A pool keeps its files through a step, in their order, and with them all messages.
pub proof fn law_steps_only_add(
    before: Seq<BatchModel>,
    pool_before: Seq<Contents>,
    step: Step,
    after: Seq<BatchModel>,
    pool_after: Seq<Contents>,
)
    requires
        is_step(before, pool_before, step, after, pool_after),
    ensures
        pool_before.is_prefix_of(pool_after),
        forall|name: Seq<char>| has_name(pool_before, name) ==> #[trigger] has_name(
            pool_after,
            name,
        ),
        forall|full: Seq<char>| declares(pool_before, full) ==> #[trigger] declares(
            pool_after,
            full,
        ),
{
    lemma_prefix_kept(pool_before, pool_after);
}

/// Files that are the first of others have no name and declare no message that the others do not.
proof fn lemma_prefix_kept(files: Seq<Contents>, more: Seq<Contents>)
    requires
        files.is_prefix_of(more),
    ensures
        forall|name: Seq<char>| has_name(files, name) ==> #[trigger] has_name(more, name),
        forall|full: Seq<char>| declares(files, full) ==> #[trigger] declares(more, full),
{
    assert forall|i: int| 0 <= i < files.len() implies files[i] == more[i] by {}
    assert forall|name: Seq<char>| has_name(files, name) implies #[trigger] has_name(
        more,
        name,
    ) by {
        let i = choose|i: int|
            0 <= i < files.len() && name_in(#[trigger] files[i]) == name;
        assert(name_in(more[i]) == name);
    }
    assert forall|full: Seq<char>| declares(files, full) implies #[trigger] declares(
        more,
        full,
    ) by {
        let i = choose|i: int| 0 <= i < files.len() && file_declares(#[trigger] files[i], full);
        assert(file_declares(more[i], full));
    }
}

/// A loader's batches and the files of the pool that it fills.
pub struct LoadState {
    pub batches: Seq<BatchModel>,
    pub pool: Seq<Contents>,
}

/// Whether steps lead from each state of a run to the next.
pub open spec fn is_run(run: Seq<LoadState>, steps: Seq<Step>) -> bool {
    &&& run.len() == steps.len() + 1
    &&& forall|i: int|
        #![trigger steps[i]]
        0 <= i < steps.len() ==> is_step(
            run[i].batches,
            run[i].pool,
            steps[i],
            run[i + 1].batches,
            run[i + 1].pool,
        )
}

/// Whether all that the files of a batch import is in the batch or in the pool.
pub open spec fn imports_at_hand(batch: BatchModel, pool: Seq<Contents>) -> bool {
    forall|n: Seq<char>, d: Seq<char>| #[trigger]
        batch.graph.edges.contains((n, d)) ==> batch.graph.nodes.contains(d) || has_name(pool, d)
}

/// Whether the files of a batch have imports that can be ranked below them.
pub open spec fn is_ranked(batch: BatchModel, rank: spec_fn(Seq<char>) -> nat) -> bool {
    forall|n: Seq<char>, d: Seq<char>| #[trigger]
        batch.graph.edges.contains((n, d)) ==> rank(d) < rank(n)
}

/// Whether all that a run adds is taken by the pool.
pub open spec fn all_taken(steps: Seq<Step>) -> bool {
    forall|i: int|
        0 <= i < steps.len() && (#[trigger] steps[i]) is Added ==> steps[i]->Added_1 is Ok
}

/// Only so many files are mentioned in a batch.
proof fn lemma_batch_is_finite(files: Seq<Seq<u8>>)
    ensures
        left(batch(files)).finite(),
    decreases files.len(),
{
    lemma_batch_keeps_count(files);
    if files.len() == 0 {
        assert(left(batch(files)) =~= Set::<Seq<char>>::empty());
    } else {
        let head = files.drop_last();
        lemma_batch_is_finite(head);
        lemma_batch_keeps_count(head);
        if let Some(header) = file_header(files.last()) {
            let deps = header.dependencies;
            vstd::seq_lib::seq_to_set_is_finite(deps);
            let all = left(batch(head)).insert(header.name).union(deps.to_set());
            assert forall|x: Seq<char>| #[trigger]
                left(batch(files)).contains(x) implies all.contains(x) by {
                let graph = batch(head).graph;
                if !graph.nodes.contains(x) && x != header.name {
                    let n = choose|n: Seq<char>| batch(files).graph.edges.contains((n, x));
                    assert(graph.edges.contains((n, x)) || deps.contains(x));
                }
                if graph.mentions(x) {
                    assert(left(batch(head)).contains(x));
                }
            }
            assert(left(batch(files)).subset_of(all));
            vstd::set_lib::lemma_set_subset_finite(all, left(batch(files)));
        }
    }
}

/// What holds after the first `k` steps of loading a batch that has all that it imports at hand.
spec fn is_loaded_to(
    files: Seq<Seq<u8>>,
    run: Seq<LoadState>,
    steps: Seq<Step>,
    k: int,
) -> bool {
    let start = batch(files);
    let state = run[k];
    &&& run[0].pool.is_prefix_of(state.pool)
    &&& state.batches.len() <= 1
    &&& state.batches.len() > 0 ==> {
        let now = state.batches.last();
        &&& now.graph == start.graph
        &&& keeps_count(now)
        &&& left(now).finite()
        &&& weight(state.batches) + k <= weight(run[0].batches)
        &&& all_taken(steps) ==> forall|name: Seq<char>|
            start.graph.nodes.contains(name) && #[trigger] now.done.contains(name) ==> has_name(
                state.pool,
                name,
            )
    }
    &&& state.batches.len() == 0 && all_taken(steps) ==> forall|name: Seq<char>| #[trigger]
        start.graph.nodes.contains(name) ==> has_name(state.pool, name)
}

/// No step in loading a batch that has all that it imports at hand asks for a file, or gives any
/// up.
proof fn lemma_loaded_to(
    files: Seq<Seq<u8>>,
    run: Seq<LoadState>,
    steps: Seq<Step>,
    rank: spec_fn(Seq<char>) -> nat,
    k: int,
)
    requires
        is_run(run, steps),
        run[0].batches == seq![batch(files)],
        imports_at_hand(batch(files), run[0].pool),
        is_ranked(batch(files), rank),
        0 <= k <= steps.len(),
    ensures
        is_loaded_to(files, run, steps, k),
        k < steps.len() ==> !(steps[k] is Fetch) && !(steps[k] is Cycle),
    decreases k,
{
    let start = batch(files);
    if k == 0 {
        lemma_batch_keeps_count(files);
        lemma_batch_is_finite(files);
    } else {
        lemma_loaded_to(files, run, steps, rank, k - 1);
        let before = run[k - 1];
        let after = run[k];
        let step = steps[k - 1];
        law_steps_only_add(before.batches, before.pool, step, after.batches, after.pool);
        match step {
            Step::Present(name) | Step::Added(name, _) | Step::Fetch(name) => {
                let was = before.batches.last();
                let now = dealt_with(was, name@);
                lemma_dealt_with_keeps_count(was, name@);
                law_every_step_leaves_less_to_do(before.batches, name@);
                assert(left(now).subset_of(left(was))) by {
                    assert forall|x: Seq<char>| left(now).contains(x) implies left(was).contains(
                        x,
                    ) by {
                        if was.done.contains(x) {
                            let j = choose|j: int| 0 <= j < was.done.len() && was.done[j] == x;
                            assert(now.done[j] == x);
                        }
                    }
                }
                vstd::set_lib::lemma_set_subset_finite(left(was), left(now));
                assert(after.batches =~= seq![now]);
                assert(after.batches.drop_last() =~= before.batches.drop_last());
                if all_taken(steps) {
                    assert forall|x: Seq<char>|
                        start.graph.nodes.contains(x) && #[trigger] now.done.contains(
                            x,
                        ) implies has_name(after.pool, x) by {
                        if was.done.contains(x) {
                        } else {
                            assert(x == name@) by {
                                let j = choose|j: int| 0 <= j < now.done.len() && now.done[j] == x;
                                if j < was.done.len() {
                                    assert(was.done[j] == x);
                                }
                            }
                            assert(was.files.contains_key(x));
                        }
                    }
                }
            },
            Step::BatchDone => {
                if all_taken(steps) {
                    let was = before.batches.last();
                    assert forall|x: Seq<char>| #[trigger]
                        start.graph.nodes.contains(x) implies has_name(after.pool, x) by {
                        assert(was.graph.mentions(x));
                        assert(was.done.contains(x));
                    }
                }
            },
            _ => {},
        }
    }
    if k < steps.len() && run[k].batches.len() > 0 {
        let now = run[k].batches.last();
        lemma_prefix_kept(run[0].pool, run[k].pool);
        if steps[k] is Cycle {
            law_acyclic_graph_is_never_stuck(now.graph, now.done, rank);
        }
        if let Step::Fetch(name) = steps[k] {
            let n = choose|n: Seq<char>| now.graph.edges.contains((n, name@));
            assert(start.graph.edges.contains((n, name@)));
        }
    } else if k < steps.len() {
        assert(is_step(
            run[k].batches,
            run[k].pool,
            steps[k],
            run[k + 1].batches,
            run[k + 1].pool,
        ));
    }
}

/// A batch without cycles whose imports are all in it or in the pool is loaded to the end without a
/// request: no step asks for a file or gives any up, and there are no more steps than files to deal
/// with and one for the end. The pool keeps what it had. Where it takes every file that is added,
/// it has all files of the batch in the end.
pub proof fn law_a_whole_batch_is_loaded_without_requests(
    files: Seq<Seq<u8>>,
    run: Seq<LoadState>,
    steps: Seq<Step>,
    rank: spec_fn(Seq<char>) -> nat,
)
    requires
        is_run(run, steps),
        run[0].batches == seq![batch(files)],
        imports_at_hand(batch(files), run[0].pool),
        is_ranked(batch(files), rank),
    ensures
        forall|i: int|
            0 <= i < steps.len() ==> !((#[trigger] steps[i]) is Fetch) && !(steps[i] is Cycle),
        run[0].pool.is_prefix_of(run.last().pool),
        steps.len() >= weight(run[0].batches) ==> run.last().batches.len() == 0,
        run.last().batches.len() == 0 && all_taken(steps) ==> forall|name: Seq<char>| #[trigger]
            batch(files).graph.nodes.contains(name) ==> has_name(run.last().pool, name),
{
    assert forall|i: int| 0 <= i < steps.len() implies !((#[trigger] steps[i]) is Fetch) && !(
    steps[i] is Cycle) by {
        lemma_loaded_to(files, run, steps, rank, i);
    }
    lemma_loaded_to(files, run, steps, rank, steps.len() as int);
    let last = run.last();
    if last.batches.len() > 0 {
        assert(weight(last.batches) > 0);
    }
}

/// A reply with encoded files, however many there are, has one batch loaded next: the innermost one,
/// which has each of the files that can be decoded, by its name. The batches around it stay as they
/// were.
pub proof fn law_every_file_of_a_reply_is_loaded_next(
    files: Vec<Vec<u8>>,
    before: Seq<BatchModel>,
    after: Seq<BatchModel>,
    i: int,
)
    requires
        after == match files_of(Some(ReflectionReply::FileDescriptors(files))) {
            Some(brought) => before.push(batch(brought)),
            None => before,
        },
        0 <= i < files@.len(),
    ensures
        after.len() == before.len() + 1,
        after.drop_last() == before,
        file_header(files@[i]@) matches Some(header) ==> {
            &&& after.last().graph.nodes.contains(header.name)
            &&& after.last().files.contains_key(header.name)
            &&& forall|k: int|
                0 <= k < header.dependencies.len() ==> after.last().graph.edges.contains(
                    (header.name, #[trigger] header.dependencies[k]),
                )
        },
        after.last().done.len() == 0,
{
    let brought = file_views(files@);
    assert(after.drop_last() =~= before);
    law_a_batch_is_what_its_files_say(brought);
    if let Some(header) = file_header(files@[i]@) {
        assert(brought[i] == files@[i]@);
        assert(is_header_of(brought, i, header));
    }
}

/// Whether a file can be decoded, and what it then says of itself.
pub open spec fn is_header_of(files: Seq<Seq<u8>>, i: int, header: HeaderModel) -> bool {
    0 <= i < files.len() && file_header(files[i]) == Some(header)
}

/// A batch has the files that can be decoded, by their names: of several with one name it has the
/// last one. A file depends on what any of those with its name imports. Nothing of it has been dealt
/// with.
pub proof fn law_a_batch_is_what_its_files_say(files: Seq<Seq<u8>>)
    ensures
        batch(files).done.len() == 0,
        forall|n: Seq<char>| #[trigger]
            batch(files).graph.nodes.contains(n) <==> exists|i: int, header: HeaderModel| #[trigger]
                is_header_of(files, i, header) && header.name == n,
        forall|n: Seq<char>, d: Seq<char>| #[trigger]
            batch(files).graph.edges.contains((n, d)) <==> exists|i: int, header: HeaderModel|
                #[trigger] is_header_of(files, i, header) && header.name == n
                    && header.dependencies.contains(d),
        forall|n: Seq<char>| #[trigger]
            batch(files).files.contains_key(n) <==> batch(files).graph.nodes.contains(n),
        forall|i: int, header: HeaderModel| #[trigger]
            is_header_of(files, i, header) && (forall|j: int, other: HeaderModel|
                i < j && #[trigger] is_header_of(files, j, other) ==> other.name != header.name)
                ==> batch(files).files[header.name] == files[i],
    decreases files.len(),
{
    if files.len() > 0 {
        let head = files.drop_last();
        let end = files.len() - 1;
        let before = batch(head);
        law_a_batch_is_what_its_files_say(head);
        assert forall|i: int, header: HeaderModel| #[trigger]
            is_header_of(files, i, header) <==> is_header_of(head, i, header) || i == end
            && file_header(files.last()) == Some(header) by {}
        let now = batch(files);
        assert forall|n: Seq<char>| #[trigger]
            now.graph.nodes.contains(n) <==> exists|i: int, header: HeaderModel| #[trigger]
            is_header_of(files, i, header) && header.name == n by {
            if before.graph.nodes.contains(n) {
                let (i, header) = choose|i: int, header: HeaderModel| #[trigger]
                    is_header_of(head, i, header) && header.name == n;
                assert(is_header_of(files, i, header));
            }
            if let Some(header) = file_header(files.last()) {
                assert(is_header_of(files, end, header));
            }
            if exists|i: int, header: HeaderModel| #[trigger]
                is_header_of(files, i, header) && header.name == n {
                let (i, header) = choose|i: int, header: HeaderModel| #[trigger]
                    is_header_of(files, i, header) && header.name == n;
                if i < end {
                    assert(is_header_of(head, i, header));
                }
            }
        }
        assert forall|n: Seq<char>, d: Seq<char>| #[trigger]
            now.graph.edges.contains((n, d)) <==> exists|i: int, header: HeaderModel| #[trigger]
            is_header_of(files, i, header) && header.name == n && header.dependencies.contains(d) by {
            if before.graph.edges.contains((n, d)) {
                let (i, header) = choose|i: int, header: HeaderModel| #[trigger]
                    is_header_of(head, i, header) && header.name == n
                        && header.dependencies.contains(d);
                assert(is_header_of(files, i, header));
            }
            if let Some(header) = file_header(files.last()) {
                assert(is_header_of(files, end, header));
            }
            if exists|i: int, header: HeaderModel| #[trigger]
                is_header_of(files, i, header) && header.name == n && header.dependencies.contains(
                    d,
                ) {
                let (i, header) = choose|i: int, header: HeaderModel| #[trigger]
                    is_header_of(files, i, header) && header.name == n
                        && header.dependencies.contains(d);
                if i < end {
                    assert(is_header_of(head, i, header));
                }
            }
        }
        assert forall|i: int, header: HeaderModel| #[trigger]
            is_header_of(files, i, header) && (forall|j: int, other: HeaderModel|
            i < j && #[trigger] is_header_of(files, j, other) ==> other.name
                != header.name) implies now.files[header.name] == files[i] by {
            if i < end {
                assert(is_header_of(head, i, header));
                assert forall|j: int, other: HeaderModel|
                    i < j && #[trigger] is_header_of(head, j, other) implies other.name
                    != header.name by {
                    assert(is_header_of(files, j, other));
                }
                if let Some(last) = file_header(files.last()) {
                    assert(is_header_of(files, end, last));
                }
            }
        }
    }
}

/// Each step says what it has found: a file is asked for only if neither its batch nor the pool has
/// it, and passed over only if the pool has it; a file of the batch is the one that is added, and is
/// in the pool where that was done. It is one that has not been dealt with, and all that it imports
/// has been.
pub proof fn law_steps_are_what_they_say(
    before: Seq<BatchModel>,
    pool_before: Seq<Contents>,
    step: Step,
    after: Seq<BatchModel>,
    pool_after: Seq<Contents>,
)
    requires
        is_step(before, pool_before, step, after, pool_after),
    ensures
        step is Done <==> before.len() == 0,
        step matches Step::Fetch(name) ==> !before.last().files.contains_key(name@) && !has_name(
            pool_before,
            name@,
        ) && pool_after == pool_before,
        step matches Step::Present(name) ==> !before.last().files.contains_key(name@) && has_name(
            pool_before,
            name@,
        ) && pool_after == pool_before,
        step matches Step::Added(name, r) ==> before.last().files.contains_key(name@) && is_added(
            pool_before,
            before.last().files[name@],
            pool_after,
            r,
        ) && (r is Ok ==> has_name(pool_after, name@)),
        step is BatchDone ==> (forall|n: Seq<char>| #[trigger]
            before.last().graph.nodes.contains(n) ==> before.last().done.contains(n)) && pool_after
            == pool_before && after == before.drop_last(),
        step is Cycle ==> pool_after == pool_before && after == before.drop_last() && exists|
            n: Seq<char>,
        | #[trigger]
            before.last().graph.mentions(n) && !before.last().done.contains(n),
        step is Fetch || step is Present || step is Added ==> {
            let name = step_name(step);
            &&& before.len() > 0 && after.len() == before.len()
            &&& after.drop_last() == before.drop_last()
            &&& after.last().graph == before.last().graph
            &&& after.last().done == before.last().done.push(name)
            &&& after.last().files == before.last().files.remove(name)
            &&& forall|k: int|
                0 <= k < before.last().done.len() ==> #[trigger] before.last().done[k] != name
            &&& forall|d: Seq<char>| #[trigger]
                before.last().graph.edges.contains((name, d)) ==> before.last().done.contains(d)
        },
{
    if step is Cycle {
        let left = choose|n: Seq<char>| #[trigger]
            before.last().graph.mentions(n) && !before.last().done.contains(n);
        assert(before.last().graph.mentions(left));
    }
    if step is BatchDone {
        law_sorting_is_finished_once_all_are_done(before.last().graph, before.last().done);
    }
    if step is Fetch || step is Present || step is Added {
        let name = step_name(step);
        assert(after.drop_last() =~= before.drop_last());
        law_a_node_is_ready_once_its_dependencies_are_done(
            before.last().graph,
            before.last().done,
            name,
        );
    }
}

/// The name of the file that a step deals with, if it deals with one.
pub open spec fn step_name(step: Step) -> Seq<char> {
    match step {
        Step::Fetch(name) => name@,
        Step::Present(name) => name@,
        Step::Added(name, _) => name@,
        _ => Seq::empty(),
    }
}

/// As long as a batch has a file that is not dealt with and has all that it imports dealt with, it is
/// neither through nor given up.
pub proof fn law_a_batch_goes_on_while_a_file_can_be_dealt_with(
    before: Seq<BatchModel>,
    pool_before: Seq<Contents>,
    step: Step,
    after: Seq<BatchModel>,
    pool_after: Seq<Contents>,
    name: Seq<char>,
)
    requires
        is_step(before, pool_before, step, after, pool_after),
        before.len() > 0,
        before.last().graph.nodes.contains(name),
        !before.last().done.contains(name),
        forall|d: Seq<char>| #[trigger]
            before.last().graph.edges.contains((name, d)) ==> before.last().done.contains(d),
    ensures
        step is Fetch || step is Present || step is Added,
{
    assert(before.last().graph.mentions(name));
    assert(before.last().graph.is_ready(before.last().done, name));
}

} // verus!
