use crate::params::TokenizerParameters;
use crate::table::ByteTable;
use crate::trainer::{greedy_bpe_encode, greedy_vocabulary, initial_corpus, lemma_greedy_rounds_natural};
use crate::vocabulary::{
    apply_length_bias, corrected, lemma_merged_associative, lemma_merged_empty,
    lemma_merged_natural, merge_into, merged, scores_natural,
};
use vstd::arithmetic::div_mod::{lemma_fundamental_div_mod, lemma_mod_bound};
use rayon::iter::{IntoParallelRefIterator, ParallelIterator};
use vstd::prelude::*;
use vstd::slice::slice_to_vec;

verus! {

/// `rayon::ThreadPool`: a pool of worker threads. Nothing is known of its inside.
#[verifier::external_type_specification]
#[verifier::external_body]
pub struct ExThreadPool(rayon::ThreadPool);

/// `rayon::ThreadPoolBuildError`: why a pool could not be set up. Nothing is known
/// of its inside.
#[verifier::external_type_specification]
#[verifier::external_body]
pub struct ExThreadPoolBuildError(rayon::ThreadPoolBuildError);

/// Why a training gave no vocabulary.
#[derive(Clone, Copy, Debug, PartialEq, Eq, Structural)]
pub enum TrainError {
    /// The pool of worker threads could not be set up.
    ThreadPool,
}

/// The input cut into chunks of `chunk` bytes, the last one shorter where
/// the length of the input is no multiple of `chunk`.
pub open spec fn chunks_of(data: Seq<u8>, chunk: int) -> Seq<Seq<u8>>
    decreases data.len(),
{
    if chunk <= 0 || data.len() == 0 {
        Seq::empty()
    } else if data.len() <= chunk {
        seq![data]
    } else {
        seq![data.take(chunk)] + chunks_of(data.skip(chunk), chunk)
    }
}

/// The vocabularies of the chunks, merged one after the other.
pub open spec fn folded(chunks: Seq<Seq<u8>>) -> Map<Seq<u8>, int>
    decreases chunks.len(),
{
    if chunks.len() == 0 {
        Map::empty()
    } else {
        merged(folded(chunks.drop_last()), greedy_vocabulary(chunks.last()))
    }
}

/// The vocabularies merged one after the other.
pub open spec fn merged_all(models: Seq<Map<Seq<u8>, int>>) -> Map<Seq<u8>, int>
    decreases models.len(),
{
    if models.len() == 0 {
        Map::empty()
    } else {
        merged(merged_all(models.drop_last()), models.last())
    }
}

/// The chunks of the groups, in order, as one list.
pub open spec fn flattened(groups: Seq<Seq<Seq<u8>>>) -> Seq<Seq<u8>>
    decreases groups.len(),
{
    if groups.len() == 0 {
        Seq::empty()
    } else {
        flattened(groups.drop_last()) + groups.last()
    }
}

/// For each group the merged vocabularies of its chunks.
pub open spec fn group_models(groups: Seq<Seq<Seq<u8>>>) -> Seq<Map<Seq<u8>, int>> {
    Seq::new(groups.len(), |g: int| folded(groups[g]))
}

/// The vocabulary that a training gives: the vocabularies of the chunks merged,
/// then each score lessened by the length of its token, once.
pub open spec fn trained_vocabulary(data: Seq<u8>, chunk: int) -> Map<Seq<u8>, int> {
    corrected(folded(chunks_of(data, chunk)))
}

/// The length of a chunk: the one asked for, or 16 bytes, or the whole of a
/// shorter input.
pub open spec fn chunk_length_for(requested: Option<usize>, input_len: usize) -> usize {
    match requested {
        Some(c) => c,
        None => if input_len < 16 {
            input_len
        } else {
            16
        },
    }
}

/// The number of threads: the one asked for, or with zero the number of cores,
/// and never none.
pub open spec fn threads_for(requested: usize, cores: usize) -> usize {
    if requested != 0 {
        requested
    } else if cores != 0 {
        cores
    } else {
        1
    }
}

/// The number of chunks in a group: the least with which `threads` groups hold
/// all of `chunks` chunks.
pub open spec fn group_size_for(chunks: usize, threads: usize) -> int {
    chunks as int / threads as int + if chunks as int % threads as int == 0 {
        0int
    } else {
        1int
    }
}

/// The chunks as mathematical sequences.
pub open spec fn chunk_views(chunks: Seq<Vec<u8>>) -> Seq<Seq<u8>> {
    Seq::new(chunks.len(), |i: int| chunks[i]@)
}

/// The groups as mathematical sequences of chunks.
pub open spec fn group_views(groups: Seq<Vec<Vec<u8>>>) -> Seq<Seq<Seq<u8>>> {
    Seq::new(groups.len(), |g: int| chunk_views(groups[g]@))
}

/// The vocabularies as mathematical mappings.
pub open spec fn model_views(models: Seq<ByteTable>) -> Seq<Map<Seq<u8>, int>> {
    Seq::new(models.len(), |i: int| models[i]@)
}

/// The merged vocabularies of chunks hold no negative score.
pub proof fn lemma_folded_natural(chunks: Seq<Seq<u8>>)
    ensures
        scores_natural(folded(chunks)),
    decreases chunks.len(),
{
    if chunks.len() > 0 {
        lemma_folded_natural(chunks.drop_last());
        lemma_greedy_rounds_natural(initial_corpus(chunks.last()), Map::empty());
        lemma_merged_natural(folded(chunks.drop_last()), greedy_vocabulary(chunks.last()));
    }
}

/// Training two lists of chunks apart and merging the results gives what training
/// the two lists as one gives.
pub proof fn lemma_folded_concat(a: Seq<Seq<u8>>, b: Seq<Seq<u8>>)
    ensures
        folded(a + b) == merged(folded(a), folded(b)),
    decreases b.len(),
{
    lemma_folded_natural(a);
    if b.len() == 0 {
        assert(a + b =~= a);
        lemma_merged_empty(folded(a));
    } else {
        let front = b.drop_last();
        assert((a + b).drop_last() =~= a + front);
        assert((a + b).last() == b.last());
        lemma_folded_concat(a, front);
        lemma_folded_natural(front);
        lemma_greedy_rounds_natural(initial_corpus(b.last()), Map::empty());
        lemma_merged_associative(folded(a), folded(front), greedy_vocabulary(b.last()));
    }
}

/// The vocabulary does not depend on how the chunks are put into groups: the
/// merged results of the groups are the merged results of all chunks in order.
pub proof fn lemma_grouping_is_free(groups: Seq<Seq<Seq<u8>>>)
    ensures
        merged_all(group_models(groups)) == folded(flattened(groups)),
    decreases groups.len(),
{
    if groups.len() > 0 {
        let front = groups.drop_last();
        lemma_grouping_is_free(front);
        assert(group_models(groups).drop_last() =~= group_models(front));
        lemma_folded_concat(flattened(front), groups.last());
    }
}

/// Two ways of putting the same chunks into groups give the same vocabulary,
/// whatever the number of groups, and so whatever the number of threads.
pub proof fn lemma_same_chunks_same_vocabulary(
    first: Seq<Seq<Seq<u8>>>,
    second: Seq<Seq<Seq<u8>>>,
)
    requires
        flattened(first) == flattened(second),
    ensures
        merged_all(group_models(first)) == merged_all(group_models(second)),
{
    lemma_grouping_is_free(first);
    lemma_grouping_is_free(second);
}

/// `num_cpus::get_physical`: the number of physical cores of the machine, or of
/// logical ones where the first is not known. Nothing is claimed of the number.
#[verifier::external_body]
fn physical_cores() -> (cores: usize) {
    num_cpus::get_physical()
}

/// `rayon::ThreadPoolBuilder::build`, after `new` and `num_threads`: a pool of at
/// most `num_threads` worker threads, or the reason why none could be set up.
/// Nothing is claimed of which of the two comes back.
#[verifier::external_body]
fn build_pool(num_threads: usize) -> (pool: Result<rayon::ThreadPool, rayon::ThreadPoolBuildError>)
    requires
        num_threads > 0,
{
    rayon::ThreadPoolBuilder::new().num_threads(num_threads).build()
}

/// `rayon::ThreadPool::install` around `par_iter`, `map` and `collect` into a
/// vector: the worker threads of the pool train the groups, one call of
/// `train_chunks` for each group. Taken on trust: that the pool makes that call
/// once for every group, that each call gives what `train_chunks` is proved to
/// give, and that the results come back in the order of the groups.
#[verifier::external_body]
fn train_groups_in_pool(pool: &rayon::ThreadPool, groups: &Vec<Vec<Vec<u8>>>) -> (models: Vec<
    ByteTable,
>)
    ensures
        models@.len() == groups@.len(),
        forall|g: int|
            0 <= g < groups@.len() ==> (#[trigger] models@[g]).wf() && models@[g]@ == folded(
                chunk_views(groups@[g]@),
            ),
{
    pool.install(|| groups.par_iter().map(|group| train_chunks(group)).collect())
}

/// The chunk length that the command line gives: the one asked for, but not more
/// than the length of the input; none where none was asked for.
pub fn limit_chunk_length(requested: Option<usize>, input_len: usize) -> (limited: Option<usize>)
    ensures
        requested is None ==> limited is None,
        requested matches Some(c) ==> limited == Some(if c < input_len {
            c
        } else {
            input_len
        }),
{
    match requested {
        None => None,
        Some(c) => Some(if c < input_len {
            c
        } else {
            input_len
        }),
    }
}

/// The number of threads to train with, from the number asked for and the number
/// of cores of the machine.
pub fn thread_count(requested: usize, cores: usize) -> (threads: usize)
    ensures
        threads == threads_for(requested, cores),
        threads > 0,
{
    if requested != 0 {
        requested
    } else if cores != 0 {
        cores
    } else {
        1
    }
}

/// The number of chunks that a group gets.
pub fn group_size(chunks: usize, threads: usize) -> (size: usize)
    requires
        threads > 0,
    ensures
        size == group_size_for(chunks, threads),
        chunks > 0 ==> size > 0,
        size * threads >= chunks,
        chunks > 0 ==> (size - 1) * threads < chunks,
{
    proof {
        let q = chunks as int / threads as int;
        let r = chunks as int % threads as int;
        lemma_fundamental_div_mod(chunks as int, threads as int);
        lemma_mod_bound(chunks as int, threads as int);
        assert(0 <= q <= chunks && (chunks > 0 && r == 0 ==> q > 0) && (r != 0 ==> q < chunks))
            by (nonlinear_arith)
            requires
                chunks == threads * q + r,
                0 <= r < threads,
        ;
        assert((q + 1) * threads == threads * q + threads && (q - 1) * threads == threads * q
            - threads && q * threads == threads * q) by (nonlinear_arith);
    }
    if chunks % threads == 0 {
        chunks / threads
    } else {
        chunks / threads + 1
    }
}

/// Cuts the input into chunks of `chunk_length` bytes.
pub fn split_chunks(data: &[u8], chunk_length: usize) -> (chunks: Vec<Vec<u8>>)
    requires
        chunk_length > 0,
    ensures
        chunk_views(chunks@) == chunks_of(data@, chunk_length as int),
{
    let mut chunks: Vec<Vec<u8>> = Vec::new();
    let mut at: usize = 0;
    proof {
        assert(data@.skip(0) =~= data@);
        assert(chunk_views(chunks@) + chunks_of(data@, chunk_length as int) =~= chunks_of(
            data@,
            chunk_length as int,
        ));
    }
    while at < data.len()
        invariant
            chunk_length > 0,
            at <= data.len(),
            chunk_views(chunks@) + chunks_of(data@.skip(at as int), chunk_length as int)
                == chunks_of(data@, chunk_length as int),
        decreases data.len() - at,
    {
        let end: usize = if data.len() - at <= chunk_length {
            data.len()
        } else {
            at + chunk_length
        };
        let ghost before = chunk_views(chunks@);
        let ghost rest = data@.skip(at as int);
        chunks.push(slice_to_vec(&data[at..end]));
        proof {
            let piece = data@.subrange(at as int, end as int);
            assert(chunk_views(chunks@) =~= before + seq![piece]);
            if data.len() - at <= chunk_length {
                assert(piece =~= rest);
                assert(data@.skip(end as int).len() == 0);
                assert(before + seq![piece] + Seq::<Seq<u8>>::empty() =~= before + seq![rest]);
            } else {
                assert(piece =~= rest.take(chunk_length as int));
                assert(rest.skip(chunk_length as int) =~= data@.skip(end as int));
                assert(before + seq![piece] + chunks_of(data@.skip(end as int), chunk_length as int)
                    =~= before + (seq![piece] + chunks_of(
                    data@.skip(end as int),
                    chunk_length as int,
                )));
            }
        }
        at = end;
    }
    proof {
        assert(chunk_views(chunks@) + Seq::<Seq<u8>>::empty() =~= chunk_views(chunks@));
    }
    chunks
}

/// Puts the chunks into groups of `size` chunks, in order. The last group may
/// hold fewer.
pub fn group_chunks(chunks: &Vec<Vec<u8>>, size: usize) -> (groups: Vec<Vec<Vec<u8>>>)
    requires
        size > 0,
    ensures
        flattened(group_views(groups@)) == chunk_views(chunks@),
        forall|g: int| 0 <= g < groups@.len() ==> 0 < (#[trigger] groups@[g])@.len() <= size,
        forall|g: int| 0 <= g < groups@.len() - 1 ==> (#[trigger] groups@[g])@.len() == size,
{
    let ghost all = chunk_views(chunks@);
    let mut groups: Vec<Vec<Vec<u8>>> = Vec::new();
    let mut current: Vec<Vec<u8>> = Vec::new();
    let mut i: usize = 0;
    proof {
        assert(flattened(group_views(groups@)) + chunk_views(current@) =~= all.take(0));
    }
    while i < chunks.len()
        invariant
            size > 0,
            all == chunk_views(chunks@),
            i <= chunks.len(),
            current@.len() < size,
            flattened(group_views(groups@)) + chunk_views(current@) == all.take(i as int),
            forall|g: int| 0 <= g < groups@.len() ==> (#[trigger] groups@[g])@.len() == size,
        decreases chunks.len() - i,
    {
        let ghost flat = flattened(group_views(groups@));
        let ghost open = chunk_views(current@);
        current.push(slice_to_vec(chunks[i].as_slice()));
        proof {
            assert(chunk_views(current@) =~= open.push(all[i as int]));
            assert((flat + open).push(all[i as int]) =~= all.take(i + 1));
            assert(flat + open.push(all[i as int]) =~= (flat + open).push(all[i as int]));
        }
        if current.len() == size {
            let ghost full = chunk_views(current@);
            let ghost views = group_views(groups@);
            groups.push(current);
            current = Vec::new();
            proof {
                assert(group_views(groups@) =~= views.push(full));
                assert(group_views(groups@).drop_last() =~= views);
                assert(flat + full + chunk_views(current@) =~= flat + full);
            }
        }
        i += 1;
    }
    proof {
        assert(all.take(i as int) =~= all);
    }
    if current.len() > 0 {
        let ghost flat = flattened(group_views(groups@));
        let ghost full = chunk_views(current@);
        let ghost views = group_views(groups@);
        groups.push(current);
        proof {
            assert(group_views(groups@) =~= views.push(full));
            assert(group_views(groups@).drop_last() =~= views);
        }
    } else {
        proof {
            assert(flattened(group_views(groups@)) + chunk_views(current@) =~= flattened(
                group_views(groups@),
            ));
        }
    }
    groups
}

/// Trains each chunk by itself, in order, and merges the vocabularies.
pub fn train_chunks(chunks: &Vec<Vec<u8>>) -> (model: ByteTable)
    ensures
        model.wf(),
        model@ == folded(chunk_views(chunks@)),
{
    let ghost all = chunk_views(chunks@);
    let mut model = ByteTable::new();
    let mut i: usize = 0;
    proof {
        assert(all.take(0) =~= Seq::<Seq<u8>>::empty());
    }
    while i < chunks.len()
        invariant
            all == chunk_views(chunks@),
            i <= chunks.len(),
            model.wf(),
            model@ == folded(all.take(i as int)),
        decreases chunks.len() - i,
    {
        let bpe = greedy_bpe_encode(chunks[i].as_slice());
        merge_into(&mut model, &bpe);
        proof {
            assert(all.take(i + 1).drop_last() =~= all.take(i as int));
            assert(all.take(i + 1).last() == chunks@[i as int]@);
        }
        i += 1;
    }
    proof {
        assert(all.take(i as int) =~= all);
    }
    model
}

/// Merges the vocabularies, one after the other.
pub fn merge_models(models: &Vec<ByteTable>) -> (total: ByteTable)
    requires
        forall|i: int| 0 <= i < models@.len() ==> (#[trigger] models@[i]).wf(),
    ensures
        total.wf(),
        total@ == merged_all(model_views(models@)),
{
    let ghost all = model_views(models@);
    let mut total = ByteTable::new();
    let mut i: usize = 0;
    proof {
        assert(all.take(0) =~= Seq::<Map<Seq<u8>, int>>::empty());
    }
    while i < models.len()
        invariant
            all == model_views(models@),
            forall|t: int| 0 <= t < models@.len() ==> (#[trigger] models@[t]).wf(),
            i <= models.len(),
            total.wf(),
            total@ == merged_all(all.take(i as int)),
        decreases models.len() - i,
    {
        merge_into(&mut total, &models[i]);
        proof {
            assert(all.take(i + 1).drop_last() =~= all.take(i as int));
            assert(all.take(i + 1).last() == models@[i as int]@);
        }
        i += 1;
    }
    proof {
        assert(all.take(i as int) =~= all);
    }
    total
}

/// Trains on the calling thread: chunk after chunk, each vocabulary merged into
/// the one before. The scores are not yet corrected.
pub fn train_tokenizer_single_thread(param: &TokenizerParameters) -> (tokenizer_model: ByteTable)
    requires
        param.bin_dat is Some,
        param.trainer_chk_bytes is Some,
        param.trainer_chk_bytes.unwrap() > 0,
    ensures
        tokenizer_model.wf(),
        tokenizer_model@ == folded(
            chunks_of(param.bin_dat.unwrap()@, param.trainer_chk_bytes.unwrap() as int),
        ),
{
    let bin_dat = param.bin_dat.as_ref().unwrap();
    let chunks = split_chunks(bin_dat.as_slice(), param.trainer_chk_bytes.unwrap());
    train_chunks(&chunks)
}

/// Trains with a pool of worker threads: the chunks are put into as many groups
/// as there are threads, each group is trained by one worker, and the results of
/// the groups are merged in order. The vocabulary is the one that a single thread
/// gives. The scores are not yet corrected.
pub fn train_tokenizer_rayon_multi_threaded(param: &TokenizerParameters) -> (r: Result<
    ByteTable,
    TrainError,
>)
    requires
        param.bin_dat is Some,
        param.multi_threaded is Some,
        param.trainer_chk_bytes is Some,
        param.trainer_chk_bytes.unwrap() > 0,
    ensures
        r matches Ok(tokenizer_model) ==> tokenizer_model.wf() && tokenizer_model@ == folded(
            chunks_of(param.bin_dat.unwrap()@, param.trainer_chk_bytes.unwrap() as int),
        ),
{
    let requested = param.multi_threaded.unwrap();
    let cores: usize = if requested == 0 {
        physical_cores()
    } else {
        0
    };
    let num_threads = thread_count(requested, cores);
    train_with_pool(param, build_pool(num_threads), num_threads)
}

/// Trains with the pool of worker threads that was set up for `num_threads`
/// threads, or reports that none was. The chunks are put into groups of the size
/// that `group_size` gives, the pool trains the groups, and the results are
/// merged in the order of the groups.
pub fn train_with_pool(
    param: &TokenizerParameters,
    pool: Result<rayon::ThreadPool, rayon::ThreadPoolBuildError>,
    num_threads: usize,
) -> (r: Result<ByteTable, TrainError>)
    requires
        param.bin_dat is Some,
        param.trainer_chk_bytes is Some,
        param.trainer_chk_bytes.unwrap() > 0,
        num_threads > 0,
    ensures
        pool is Err ==> r == Err::<ByteTable, TrainError>(TrainError::ThreadPool),
        pool is Ok ==> (r matches Ok(tokenizer_model) && tokenizer_model.wf() && tokenizer_model@
            == folded(chunks_of(param.bin_dat.unwrap()@, param.trainer_chk_bytes.unwrap() as int))),
{
    let pool = match pool {
        Ok(pool) => pool,
        Err(_) => {
            return Err(TrainError::ThreadPool);
        },
    };
    let bin_dat = param.bin_dat.as_ref().unwrap();
    let chunks = split_chunks(bin_dat.as_slice(), param.trainer_chk_bytes.unwrap());
    if chunks.len() == 0 {
        return Ok(ByteTable::new());
    }
    let groups = group_chunks(&chunks, group_size(chunks.len(), num_threads));
    let models = train_groups_in_pool(&pool, &groups);
    proof {
        assert(model_views(models@) =~= group_models(group_views(groups@)));
        lemma_grouping_is_free(group_views(groups@));
    }
    Ok(merge_models(&models))
}

/// Trains the vocabulary of the input of `param`. Where no chunk length is set,
/// it is set first: to 16 bytes, or to the length of a shorter input. The input
/// is cut into chunks, each chunk is trained by itself, on the calling thread or
/// on worker threads, the vocabularies are merged, and at the end each score is
/// lessened by the length of its token. The vocabulary depends on the input and
/// the chunk length alone, not on the number of threads.
pub fn train_tokenizer(param: &mut TokenizerParameters) -> (r: Result<ByteTable, TrainError>)
    requires
        old(param).bin_dat is Some,
        chunk_length_for(old(param).trainer_chk_bytes, old(param).bin_dat.unwrap().len()) > 0,
    ensures
        final(param).trainer_chk_bytes == Some(
            chunk_length_for(old(param).trainer_chk_bytes, old(param).bin_dat.unwrap().len()),
        ),
        final(param).mode == old(param).mode,
        final(param).dbg_lv == old(param).dbg_lv,
        final(param).bin_dat == old(param).bin_dat,
        final(param).bytes_to_read == old(param).bytes_to_read,
        final(param).multi_threaded == old(param).multi_threaded,
        old(param).multi_threaded is None ==> r is Ok,
        r matches Ok(model) ==> model.wf() && model@ == trained_vocabulary(
            old(param).bin_dat.unwrap()@,
            chunk_length_for(old(param).trainer_chk_bytes, old(param).bin_dat.unwrap().len()) as int,
        ),
{
    if param.trainer_chk_bytes.is_none() {
        let input_len = param.bin_dat.as_ref().unwrap().len();
        let default_chunk_length: usize = if input_len < 16 {
            input_len
        } else {
            16
        };
        param.trainer_chk_bytes = Some(default_chunk_length);
    }
    if param.multi_threaded.is_some() {
        match train_tokenizer_rayon_multi_threaded(param) {
            Ok(tokenizer_model) => Ok(apply_length_bias(&tokenizer_model)),
            Err(e) => Err(e),
        }
    } else {
        let tokenizer_model = train_tokenizer_single_thread(param);
        Ok(apply_length_bias(&tokenizer_model))
    }
}

} // verus!
