//! Indexing settings, how documents are cut into batches, and which segments a compaction
//! merges.

use vstd::prelude::*;

verus! {

/// When the segments of an index are merged, and how many at once.
#[derive(Debug, Clone, Copy)]
pub struct CompactionConfig {
    pub max_segments_per_compaction: usize,
    pub compact_when_segments_at_least: usize,
}

impl Default for CompactionConfig {
    /// Merge up to 16 segments once there are 4.
    fn default() -> (r: Self)
        ensures
            r.max_segments_per_compaction == 16,
            r.compact_when_segments_at_least == 4,
    {
        CompactionConfig { max_segments_per_compaction: 16, compact_when_segments_at_least: 4 }
    }
}

/// How an index takes in documents.
#[derive(Debug, Clone, Copy)]
pub struct IndexRuntimeConfig {
    pub flush_threshold: usize,
    /// Documents per segment.
    pub indexing_batch_size: usize,
    /// Batches built in parallel before they are published.
    pub indexing_window_size: usize,
    pub compaction: CompactionConfig,
}

impl Default for IndexRuntimeConfig {
    /// A 100 MiB flush threshold, batches of 100 000 documents, 8 batches at a time, and the
    /// default compaction.
    fn default() -> (r: Self)
        ensures
            r.flush_threshold == 100 * 1024 * 1024,
            r.indexing_window_size == 8,
            r.indexing_batch_size == 100_000,
            r.compaction.max_segments_per_compaction == 16,
            r.compaction.compact_when_segments_at_least == 4,
    {
        IndexRuntimeConfig {
            flush_threshold: 100 * 1024 * 1024,
            indexing_window_size: 8,
            indexing_batch_size: 100_000,
            compaction: CompactionConfig::default(),
        }
    }
}

/// The batches `bs` one after the other.
pub open spec fn joined<T>(bs: Seq<Seq<T>>) -> Seq<T>
    decreases bs.len(),
{
    if bs.len() == 0 {
        Seq::empty()
    } else {
        joined(bs.drop_last()) + bs.last()
    }
}

/// The contents of each batch.
pub open spec fn batch_views<T>(bs: Seq<Vec<T>>) -> Seq<Seq<T>> {
    bs.map_values(|b: Vec<T>| b@)
}

/// Cuts `items` into batches of `batch_size`, in order; the last batch holds what is left.
pub fn make_batches<T>(items: Vec<T>, batch_size: usize) -> (r: Vec<Vec<T>>)
    requires
        batch_size > 0,
    ensures
        joined(batch_views(r@)) == items@,
        forall|i: int| 0 <= i < r@.len() - 1 ==> (#[trigger] r@[i])@.len() == batch_size,
        r@.len() > 0 ==> 0 < r@.last()@.len() <= batch_size,
        items@.len() == 0 <==> r@.len() == 0,
{
    let ghost orig = items@;
    let mut items = items;
    let mut reversed: Vec<T> = Vec::new();
    while items.len() > 0
        invariant
            orig == items@ + reversed@.reverse(),
        decreases items.len(),
    {
        let ghost before_items = items@;
        let ghost before_rev = reversed@;
        let x = items.pop().unwrap();
        reversed.push(x);
        proof {
            assert(before_items =~= items@.push(x));
            assert(reversed@.reverse() =~= seq![x] + before_rev.reverse());
            assert(orig =~= items@ + reversed@.reverse());
        }
    }
    assert(orig =~= reversed@.reverse());
    let mut batches: Vec<Vec<T>> = Vec::new();
    let mut current: Vec<T> = Vec::new();
    while reversed.len() > 0
        invariant
            batch_size > 0,
            orig == joined(batch_views(batches@)) + current@ + reversed@.reverse(),
            current@.len() < batch_size,
            forall|i: int| 0 <= i < batches@.len() ==> (#[trigger] batches@[i])@.len() == batch_size,
        decreases reversed.len(),
    {
        let ghost before_rev = reversed@;
        let ghost before_cur = current@;
        let ghost before_batches = batches@;
        let x = reversed.pop().unwrap();
        current.push(x);
        proof {
            assert(before_rev =~= reversed@.push(x));
            assert(before_rev.reverse() =~= seq![x] + reversed@.reverse());
            assert(orig =~= joined(batch_views(batches@)) + current@ + reversed@.reverse());
        }
        if current.len() == batch_size {
            let full = current;
            current = Vec::new();
            let ghost full_view = full@;
            batches.push(full);
            proof {
                assert(batch_views(batches@) =~= batch_views(before_batches).push(full_view));
                assert(batch_views(batches@).drop_last() =~= batch_views(before_batches));
                assert(joined(batch_views(batches@)) == joined(batch_views(before_batches)) + full_view);
                assert(orig =~= joined(batch_views(batches@)) + current@ + reversed@.reverse());
            }
        }
    }
    assert(reversed@.reverse() =~= Seq::<T>::empty());
    let ghost last_batches = batches@;
    if current.len() > 0 {
        let ghost cur = current@;
        batches.push(current);
        proof {
            assert(batch_views(batches@) =~= batch_views(last_batches).push(cur));
            assert(batch_views(batches@).drop_last() =~= batch_views(last_batches));
            assert(orig =~= joined(batch_views(batches@)));
        }
    } else {
        assert(orig =~= joined(batch_views(batches@)));
    }
    proof {
        if orig.len() == 0 && batches@.len() > 0 {
            lemma_joined_len_last(batch_views(batches@));
        }
    }
    batches
}

/// Joining batches gives at least as many items as the last batch holds.
proof fn lemma_joined_len_last<T>(bs: Seq<Seq<T>>)
    requires
        bs.len() > 0,
    ensures
        joined(bs).len() >= bs.last().len(),
{
}

/// The positions of the segments held on disk among the first `n` of `on_disk`, in order.
pub open spec fn disk_positions(on_disk: Seq<bool>, n: int) -> Seq<usize>
    decreases n,
{
    if n <= 0 {
        Seq::empty()
    } else if on_disk[n - 1] {
        disk_positions(on_disk, n - 1).push((n - 1) as usize)
    } else {
        disk_positions(on_disk, n - 1)
    }
}

/// What a compaction merges of the segments that `on_disk` describes (whether each is held on
/// disk): nothing while there are fewer than `compact_when_segments_at_least` segments; else
/// the first `max_segments_per_compaction` of those on disk, in order, when that is at least
/// two of them.
pub open spec fn compaction_choice(on_disk: Seq<bool>, config: CompactionConfig) -> Option<Seq<usize>> {
    let chosen = disk_positions(on_disk, on_disk.len() as int);
    let taken = if chosen.len() > config.max_segments_per_compaction {
        chosen.take(config.max_segments_per_compaction as int)
    } else {
        chosen
    };
    if on_disk.len() < config.compact_when_segments_at_least || taken.len() < 2 {
        None
    } else {
        Some(taken)
    }
}

/// The positions of the segments a compaction merges, as `compaction_choice` says.
pub fn select_compaction(on_disk: &[bool], config: CompactionConfig) -> (r: Option<Vec<usize>>)
    ensures
        match compaction_choice(on_disk@, config) {
            Some(s) => r matches Some(v) && v@ == s,
            None => r is None,
        },
{
    if on_disk.len() < config.compact_when_segments_at_least {
        return None;
    }
    let mut chosen: Vec<usize> = Vec::new();
    let mut i: usize = 0;
    while i < on_disk.len() && chosen.len() < config.max_segments_per_compaction
        invariant
            i <= on_disk@.len(),
            chosen@ == disk_positions(on_disk@, i as int),
            chosen@.len() <= config.max_segments_per_compaction,
        decreases on_disk@.len() - i,
    {
        if on_disk[i] {
            chosen.push(i);
        }
        i += 1;
    }
    proof {
        let all = disk_positions(on_disk@, on_disk@.len() as int);
        lemma_disk_positions_prefix(on_disk@, i as int, on_disk@.len() as int);
        if chosen@.len() >= config.max_segments_per_compaction {
            assert(all.take(config.max_segments_per_compaction as int) =~= chosen@);
        } else {
            assert(i == on_disk@.len());
        }
    }
    if chosen.len() < 2 {
        return None;
    }
    Some(chosen)
}

/// The disk positions among the first `a` segments come first among those of the first `b`.
proof fn lemma_disk_positions_prefix(on_disk: Seq<bool>, a: int, b: int)
    requires
        0 <= a <= b <= on_disk.len(),
    ensures
        disk_positions(on_disk, a).len() <= disk_positions(on_disk, b).len(),
        disk_positions(on_disk, b).take(disk_positions(on_disk, a).len() as int) == disk_positions(on_disk, a),
    decreases b - a,
{
    if a < b {
        lemma_disk_positions_prefix(on_disk, a, b - 1);
        let pa = disk_positions(on_disk, a);
        let pb1 = disk_positions(on_disk, b - 1);
        let pb = disk_positions(on_disk, b);
        if on_disk[b - 1] {
            assert(pb.take(pa.len() as int) =~= pb1.take(pa.len() as int));
        }
    } else {
        assert(disk_positions(on_disk, b).take(disk_positions(on_disk, a).len() as int) =~= disk_positions(on_disk, a));
    }
}

} // verus!
