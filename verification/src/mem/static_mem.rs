//! The static memory store: one byte buffer per HDL memory instance,
//! identified by its path, width and depth, filled by byte writes and
//! handed to an export sink on flush.

use crate::mem::static_snapshot::{
    collect_valid_ranges, covered, dense_data, dense_image, lemma_maximal_runs_unique,
    lemma_runs_inside, maximal_runs, range_holds, ranges_inside, StaticMemRange,
};
use std::collections::BTreeMap;
use vstd::prelude::*;

verus! {

/// Identifies one HDL memory instance: its hierarchical path, the width of
/// a word in bytes and the number of words.
#[derive(Clone, Debug, PartialEq, Eq)]
pub struct StaticMemDescriptor {
    pub path: String,
    pub width: usize,
    pub depth: usize,
}

impl StaticMemDescriptor {
    /// Number of bytes the instance holds.
    pub open spec fn byte_len(self) -> int {
        self.width * self.depth
    }
}

/// One call that a sink received: the instance's identity, the data and
/// written ranges it was handed, and what the call returned.
#[verifier::ext_equal]
pub struct SinkCall {
    pub path: Seq<char>,
    pub width: usize,
    pub depth: usize,
    pub data: Seq<u8>,
    pub valid_ranges: Seq<StaticMemRange>,
    pub outcome: Result<(), String>,
}

/// Where the contents of each instance go on a flush. The store hands each
/// instance its descriptor, its whole extent of `width * depth` bytes and
/// the ranges of offsets that were written; every byte outside those
/// ranges is zero.
pub trait StaticMemSink {
    /// The calls this sink has received so far, oldest first (an
    /// implementation keeps this log in ghost state).
    spec fn received(&self) -> Seq<SinkCall>;

    /// Takes one instance; the call, with what it returns, is added at the
    /// end of `received`.
    fn write_static_mem(
        &mut self,
        descriptor: &StaticMemDescriptor,
        data: &[u8],
        valid_ranges: &[StaticMemRange],
    ) -> (r: Result<(), String>)
        requires
            data@.len() == descriptor.byte_len(),
            ranges_inside(valid_ranges@, data@.len() as int),
            forall|k: int|
                0 <= k < data@.len() && !covered(valid_ranges@, k) ==> #[trigger] data@[k] == 0,
        ensures
            final(self).received() == old(self).received().push(
                SinkCall {
                    path: descriptor.path@,
                    width: descriptor.width,
                    depth: descriptor.depth,
                    data: data@,
                    valid_ranges: valid_ranges@,
                    outcome: r,
                },
            ),
    ;
}

/// What a flush hands over for the instance `st`: its identity, its dense
/// image and the maximal runs of its written offsets.
pub open spec fn export_of(
    st: InstanceState,
    path: Seq<char>,
    width: usize,
    depth: usize,
    data: Seq<u8>,
    valid_ranges: Seq<StaticMemRange>,
) -> bool {
    &&& st.is(path, width, depth)
    &&& data == dense_image(st.byte_len() as nat, st.bytes)
    &&& maximal_runs(valid_ranges, st.bytes.dom())
}

/// `calls` are the sink calls of a flush of the store `s` that returned
/// `r`: the instances of `s` handed over in order of registration, each
/// with its dense image and written ranges, up to and including the first
/// call that failed; `r` is that failure, or `Ok` when every instance was
/// taken.
pub open spec fn flush_calls(s: Seq<InstanceState>, calls: Seq<SinkCall>, r: Result<(), String>) -> bool {
    &&& calls.len() <= s.len()
    &&& forall|j: int|
        0 <= j < calls.len() ==> export_of(
            s[j],
            (#[trigger] calls[j]).path,
            calls[j].width,
            calls[j].depth,
            calls[j].data,
            calls[j].valid_ranges,
        )
    &&& forall|j: int| 0 <= j < calls.len() - 1 ==> (#[trigger] calls[j]).outcome is Ok
    &&& match r {
        Ok(_) => calls.len() == s.len() && (calls.len() > 0 ==> calls.last().outcome is Ok),
        Err(_) => calls.len() > 0 && calls.last().outcome == r,
    }
}

/// The abstract state of one registered instance: its identity and the
/// bytes written to it so far, by offset.
#[verifier::ext_equal]
pub struct InstanceState {
    pub path: Seq<char>,
    pub width: usize,
    pub depth: usize,
    pub bytes: Map<usize, u8>,
}

impl InstanceState {
    /// Number of bytes the instance holds.
    pub open spec fn byte_len(self) -> int {
        self.width * self.depth
    }

    /// The instance is the one named by `path`, `width` and `depth`.
    pub open spec fn is(self, path: Seq<char>, width: usize, depth: usize) -> bool {
        self.path == path && self.width == width && self.depth == depth
    }

    /// What a read of `offset` gives: the last byte written there, or zero.
    pub open spec fn byte_at(self, offset: usize) -> u8 {
        if self.bytes.contains_key(offset) {
            self.bytes[offset]
        } else {
            0
        }
    }

    /// Its size fits in `usize` and every written offset lies inside it.
    pub open spec fn wf(self) -> bool {
        &&& self.byte_len() <= usize::MAX
        &&& forall|k: usize| #[trigger] self.bytes.contains_key(k) ==> k < self.byte_len()
    }
}

/// Position of the first instance of `s` named by `path`, `width` and
/// `depth`, if there is one.
pub open spec fn find_instance(s: Seq<InstanceState>, path: Seq<char>, width: usize, depth: usize) -> Option<int>
    decreases s.len(),
{
    if s.len() == 0 {
        None
    } else {
        match find_instance(s.drop_last(), path, width, depth) {
            Some(i) => Some(i),
            None => if s.last().is(path, width, depth) {
                Some(s.len() - 1)
            } else {
                None
            },
        }
    }
}

/// No two instances of `s` share their path, width and depth.
pub open spec fn distinct_instances(s: Seq<InstanceState>) -> bool {
    forall|i: int, j: int|
        0 <= i < s.len() && 0 <= j < s.len() && i != j ==> !(#[trigger] s[i]).is(
            (#[trigger] s[j]).path,
            s[j].width,
            s[j].depth,
        )
}

/// A store state that the store's operations keep: distinct instances,
/// each well formed.
pub open spec fn valid_store(s: Seq<InstanceState>) -> bool {
    &&& distinct_instances(s)
    &&& forall|i: int| 0 <= i < s.len() ==> (#[trigger] s[i]).wf()
}

/// The store after registering an instance: unchanged if it is already
/// there, else with a new, empty instance at the end.
pub open spec fn registered(s: Seq<InstanceState>, path: Seq<char>, width: usize, depth: usize) -> Seq<InstanceState> {
    if find_instance(s, path, width, depth) is Some {
        s
    } else {
        s.push(InstanceState { path, width, depth, bytes: Map::empty() })
    }
}

/// Whether a byte write to `offset` of the named instance is taken: the
/// instance is registered and the offset lies inside it.
pub open spec fn write_accepted(s: Seq<InstanceState>, path: Seq<char>, width: usize, depth: usize, offset: usize) -> bool {
    match find_instance(s, path, width, depth) {
        Some(i) => offset < s[i].byte_len(),
        None => false,
    }
}

/// The store after a byte write: the named instance holds `byte` at
/// `offset` when the write is taken; otherwise nothing changes.
pub open spec fn written(s: Seq<InstanceState>, path: Seq<char>, width: usize, depth: usize, offset: usize, byte: u8) -> Seq<InstanceState> {
    match find_instance(s, path, width, depth) {
        Some(i) => if offset < s[i].byte_len() {
            s.update(i, InstanceState { bytes: s[i].bytes.insert(offset, byte), ..s[i] })
        } else {
            s
        },
        None => s,
    }
}

/// What a byte read of `offset` of the named instance gives: `None` when
/// the instance is not registered or the offset lies outside it.
pub open spec fn read_result(s: Seq<InstanceState>, path: Seq<char>, width: usize, depth: usize, offset: usize) -> Option<u8> {
    match find_instance(s, path, width, depth) {
        Some(i) => if offset < s[i].byte_len() {
            Some(s[i].byte_at(offset))
        } else {
            None
        },
        None => None,
    }
}

/// The bytes written to one instance, kept sparse: only the offsets that
/// were written are present.
pub struct StaticMemBuffer {
    descriptor: StaticMemDescriptor,
    data: BTreeMap<usize, u8>,
}

impl StaticMemBuffer {
    pub closed spec fn state(self) -> InstanceState {
        InstanceState {
            path: self.descriptor.path@,
            width: self.descriptor.width,
            depth: self.descriptor.depth,
            bytes: self.data@,
        }
    }
}

/// The store after registering `instances[0..n]` one after the other;
/// each instance is its path, width and depth.
pub open spec fn registered_all(s: Seq<InstanceState>, instances: Seq<(String, usize, usize)>, n: int) -> Seq<InstanceState>
    decreases n,
{
    if n <= 0 {
        s
    } else {
        let t = instances[n - 1];
        registered(registered_all(s, instances, n - 1), t.0@, t.1, t.2)
    }
}

/// The store after the byte writes `data[0..n]`, byte `k` going to the
/// instance and offset `targets[k]` (path, width, depth, offset).
pub open spec fn written_all(
    s: Seq<InstanceState>,
    targets: Seq<(String, usize, usize, usize)>,
    data: Seq<u8>,
    n: int,
) -> Seq<InstanceState>
    decreases n,
{
    if n <= 0 {
        s
    } else {
        let t = targets[n - 1];
        written(written_all(s, targets, data, n - 1), t.0@, t.1, t.2, t.3, data[n - 1])
    }
}

/// All registered instances, in the order in which they were registered.
pub struct StaticMems {
    mems: Vec<StaticMemBuffer>,
}

impl View for StaticMems {
    type V = Seq<InstanceState>;

    closed spec fn view(&self) -> Seq<InstanceState> {
        self.mems@.map_values(|b: StaticMemBuffer| b.state())
    }
}

impl StaticMems {
    #[verifier::type_invariant]
    closed spec fn inv(self) -> bool {
        valid_store(self@)
    }

    /// An empty store.
    pub fn new() -> (mems: Self)
        ensures
            mems@ == Seq::<InstanceState>::empty(),
            valid_store(mems@),
    {
        let mems = StaticMems { mems: Vec::new() };
        assert(mems@ =~= Seq::<InstanceState>::empty());
        mems
    }

    /// Position of the first instance named by `path`, `width` and `depth`.
    fn find(&self, path: &String, width: usize, depth: usize) -> (r: Option<usize>)
        ensures
            self@.len() == self.mems@.len(),
            match r {
                Some(i) => i < self.mems@.len() && find_instance(self@, path@, width, depth) == Some(
                    i as int,
                ),
                None => find_instance(self@, path@, width, depth) is None,
            },
    {
        let mut i: usize = 0;
        while i < self.mems.len()
            invariant
                i <= self.mems@.len(),
                self@.len() == self.mems@.len(),
                find_instance(self@.take(i as int), path@, width, depth) is None,
            decreases self.mems@.len() - i,
        {
            let d = &self.mems[i].descriptor;
            proof {
                assert(self@.take(i + 1).drop_last() =~= self@.take(i as int));
                assert(self@[i as int] == self.mems@[i as int].state());
            }
            if d.path == *path && d.width == width && d.depth == depth {
                proof {
                    lemma_find_prefix(self@, i + 1, path@, width, depth);
                }
                return Some(i);
            }
            i = i + 1;
        }
        proof {
            assert(self@.take(i as int) =~= self@);
        }
        None
    }

    /// A copy of the store, taken so that the store can be released while
    /// the copy is flushed.
    pub fn snapshot(&self) -> (copy: StaticMems)
        ensures
            copy@ == self@,
    {
        proof {
            use_type_invariant(self);
        }
        let mut mems: Vec<StaticMemBuffer> = Vec::new();
        let mut i: usize = 0;
        while i < self.mems.len()
            invariant
                i <= self.mems@.len(),
                mems@.len() == i,
                forall|j: int| 0 <= j < i ==> (#[trigger] mems@[j]).state() == self.mems@[j].state(),
            decreases self.mems@.len() - i,
        {
            let buffer = &self.mems[i];
            let copy = StaticMemBuffer {
                descriptor: StaticMemDescriptor {
                    path: buffer.descriptor.path.clone(),
                    width: buffer.descriptor.width,
                    depth: buffer.descriptor.depth,
                },
                data: buffer.data.clone(),
            };
            mems.push(copy);
            i = i + 1;
        }
        proof {
            assert(mems@.map_values(|b: StaticMemBuffer| b.state()) =~= self@);
        }
        StaticMems { mems }
    }

    /// Forgets every registered instance.
    pub fn clear(&mut self)
        ensures
            final(self)@ == Seq::<InstanceState>::empty(),
    {
        self.mems = Vec::new();
        assert(self@ =~= Seq::<InstanceState>::empty());
    }

    /// Registers the instance named by `path`, `width` and `depth` with no
    /// byte written, unless it is registered already.
    pub fn register_instance(&mut self, path: String, width: usize, depth: usize)
        requires
            width * depth <= usize::MAX,
        ensures
            final(self)@ == registered(old(self)@, path@, width, depth),
            valid_store(final(self)@),
    {
        proof {
            use_type_invariant(&*self);
        }
        if self.find(&path, width, depth).is_some() {
            return;
        }
        let ghost before = self@;
        let buffer = StaticMemBuffer {
            descriptor: StaticMemDescriptor { path, width, depth },
            data: BTreeMap::new(),
        };
        let ghost new_state = buffer.state();
        let mut mems: Vec<StaticMemBuffer> = Vec::new();
        std::mem::swap(&mut mems, &mut self.mems);
        mems.push(buffer);
        proof {
            lemma_find_instance(before, path@, width, depth);
            let after = mems@.map_values(|b: StaticMemBuffer| b.state());
            assert(after =~= before.push(new_state));
            assert(new_state.bytes =~= Map::<usize, u8>::empty());
            assert(after =~= registered(before, path@, width, depth));
            assert(valid_store(after));
        }
        self.mems = mems;
    }

    /// Writes `byte` at `offset` of the named instance. Returns whether the
    /// write was taken: the instance is registered and the offset lies
    /// inside it.
    pub fn write_instance_locked(
        &mut self,
        path: &str,
        width: usize,
        depth: usize,
        offset: usize,
        byte: u8,
    ) -> (r: bool)
        ensures
            r == write_accepted(old(self)@, path@, width, depth, offset),
            final(self)@ == written(old(self)@, path@, width, depth, offset, byte),
            valid_store(final(self)@),
    {
        proof {
            use_type_invariant(&*self);
        }
        let path = path.to_owned();
        let found = self.find(&path, width, depth);
        match found {
            None => false,
            Some(i) => {
                let ghost before = self@;
                proof {
                    assert(before[i as int] == self.mems@[i as int].state());
                    assert(before[i as int].wf());
                }
                let len: usize = self.mems[i].descriptor.width * self.mems[i].descriptor.depth;
                if offset >= len {
                    return false;
                }
                let mut mems: Vec<StaticMemBuffer> = Vec::new();
                std::mem::swap(&mut mems, &mut self.mems);
                mems[i].data.insert(offset, byte);
                proof {
                    lemma_find_instance(before, path@, width, depth);
                    let after = mems@.map_values(|b: StaticMemBuffer| b.state());
                    assert(after =~= written(before, path@, width, depth, offset, byte));
                    assert forall|j: int| 0 <= j < after.len() implies (#[trigger] after[j]).wf() by {
                        assert(before[j].wf());
                    }
                    assert(valid_store(after));
                }
                self.mems = mems;
                true
            }
        }
    }

    /// Reads the byte at `offset` of the named instance: the last byte
    /// written there, or zero; `None` when the instance is not registered
    /// or the offset lies outside it.
    pub fn read_instance_locked(&self, path: &str, width: usize, depth: usize, offset: usize) -> (r:
        Option<u8>)
        ensures
            r == read_result(self@, path@, width, depth, offset),
    {
        proof {
            use_type_invariant(self);
        }
        let path = path.to_owned();
        match self.find(&path, width, depth) {
            None => None,
            Some(i) => {
                let buffer = &self.mems[i];
                proof {
                    assert(self@[i as int] == buffer.state());
                }
                let len: usize = buffer.descriptor.width * buffer.descriptor.depth;
                if offset >= len {
                    return None;
                }
                match buffer.data.get(&offset) {
                    Some(b) => Some(*b),
                    None => Some(0),
                }
            }
        }
    }
    /// Registers each of `instances` (path, width, depth) in turn, as
    /// `register_instance` does.
    pub fn register_instances(&mut self, instances: &Vec<(String, usize, usize)>)
        requires
            forall|k: int| 0 <= k < instances@.len() ==> (#[trigger] instances@[k]).1 * instances@[k].2 <= usize::MAX,
        ensures
            final(self)@ == registered_all(old(self)@, instances@, instances@.len() as int),
            valid_store(final(self)@),
    {
        proof {
            use_type_invariant(&*self);
        }
        let ghost start = self@;
        let mut i: usize = 0;
        while i < instances.len()
            invariant
                i <= instances@.len(),
                forall|k: int| 0 <= k < instances@.len() ==> (#[trigger] instances@[k]).1 * instances@[k].2 <= usize::MAX,
                self@ == registered_all(start, instances@, i as int),
                valid_store(self@),
            decreases instances@.len() - i,
        {
            let instance = &instances[i];
            proof {
                assert(instances@[i as int] == *instance);
            }
            self.register_instance(instance.0.clone(), instance.1, instance.2);
            i = i + 1;
        }
    }

    /// Writes `data[k]` to the instance and offset `targets[k]` (path,
    /// width, depth, offset), in order, and stops at the first write that
    /// is not taken. Returns the number of bytes written.
    pub fn write_bytes(&mut self, targets: &Vec<(String, usize, usize, usize)>, data: &[u8]) -> (n: usize)
        requires
            targets@.len() == data@.len(),
        ensures
            n <= data@.len(),
            final(self)@ == written_all(old(self)@, targets@, data@, n as int),
            forall|k: int|
                0 <= k < n ==> write_accepted(
                    written_all(old(self)@, targets@, data@, k),
                    (#[trigger] targets@[k]).0@,
                    targets@[k].1,
                    targets@[k].2,
                    targets@[k].3,
                ),
            n < data@.len() ==> !write_accepted(
                final(self)@,
                targets@[n as int].0@,
                targets@[n as int].1,
                targets@[n as int].2,
                targets@[n as int].3,
            ),
            valid_store(final(self)@),
    {
        proof {
            use_type_invariant(&*self);
        }
        let ghost start = self@;
        let mut i: usize = 0;
        while i < data.len()
            invariant
                i <= data@.len(),
                targets@.len() == data@.len(),
                start == old(self)@,
                self@ == written_all(start, targets@, data@, i as int),
                forall|k: int|
                    0 <= k < i ==> write_accepted(
                        written_all(start, targets@, data@, k),
                        (#[trigger] targets@[k]).0@,
                        targets@[k].1,
                        targets@[k].2,
                        targets@[k].3,
                    ),
                valid_store(self@),
            decreases data@.len() - i,
        {
            let target = &targets[i];
            proof {
                assert(targets@[i as int] == *target);
            }
            let taken = self.write_instance_locked(target.0.as_str(), target.1, target.2, target.3, data[i]);
            if !taken {
                return i;
            }
            i = i + 1;
        }
        i
    }

    /// Reads the byte at the instance and offset `targets[k]` (path, width,
    /// depth, offset) into `data[k]`, in order, and stops at the first read
    /// that gives nothing. Returns the number of bytes read; the rest of
    /// `data` is left as it was.
    pub fn read_bytes(&self, targets: &Vec<(String, usize, usize, usize)>, data: &mut [u8]) -> (n: usize)
        requires
            targets@.len() == old(data)@.len(),
        ensures
            n <= old(data)@.len(),
            final(data)@.len() == old(data)@.len(),
            forall|k: int|
                0 <= k < n ==> read_result(
                    self@,
                    (#[trigger] targets@[k]).0@,
                    targets@[k].1,
                    targets@[k].2,
                    targets@[k].3,
                ) == Some(final(data)@[k]),
            forall|k: int| n <= k < old(data)@.len() ==> #[trigger] final(data)@[k] == old(data)@[k],
            n < old(data)@.len() ==> read_result(
                self@,
                targets@[n as int].0@,
                targets@[n as int].1,
                targets@[n as int].2,
                targets@[n as int].3,
            ) is None,
    {
        let ghost start = data@;
        let mut i: usize = 0;
        while i < data.len()
            invariant
                i <= data@.len(),
                data@.len() == start.len(),
                start == old(data)@,
                targets@.len() == start.len(),
                forall|k: int|
                    0 <= k < i ==> read_result(
                        self@,
                        (#[trigger] targets@[k]).0@,
                        targets@[k].1,
                        targets@[k].2,
                        targets@[k].3,
                    ) == Some(data@[k]),
                forall|k: int| i <= k < start.len() ==> #[trigger] data@[k] == start[k],
            decreases start.len() - i,
        {
            let target = &targets[i];
            proof {
                assert(targets@[i as int] == *target);
            }
            match self.read_instance_locked(target.0.as_str(), target.1, target.2, target.3) {
                Some(value) => {
                    data[i] = value;
                },
                None => {
                    return i;
                },
            }
            i = i + 1;
        }
        i
    }

}

/// Forgets every registered instance.
pub fn clear_static_mems(mems: &mut StaticMems)
    ensures
        final(mems)@ == Seq::<InstanceState>::empty(),
{
    mems.clear();
}

/// What a flush hands the sink for one instance.
pub struct StaticMemExport {
    pub descriptor: StaticMemDescriptor,
    pub data: Vec<u8>,
    pub valid_ranges: Vec<StaticMemRange>,
}

/// The export of every registered instance, in the order of registration:
/// its descriptor, its dense image and the maximal runs of its written
/// offsets.
pub fn static_mem_exports(mems: &StaticMems) -> (e: Vec<StaticMemExport>)
    ensures
        e@.len() == mems@.len(),
        forall|i: int|
            0 <= i < e@.len() ==> export_of(
                mems@[i],
                (#[trigger] e@[i]).descriptor.path@,
                e@[i].descriptor.width,
                e@[i].descriptor.depth,
                e@[i].data@,
                e@[i].valid_ranges@,
            ),
{
    proof {
        use_type_invariant(mems);
    }
    let mut exports: Vec<StaticMemExport> = Vec::new();
    let mut i: usize = 0;
    while i < mems.mems.len()
        invariant
            i <= mems.mems@.len(),
            mems@.len() == mems.mems@.len(),
            valid_store(mems@),
            exports@.len() == i,
            forall|j: int|
                0 <= j < i ==> export_of(
                    mems@[j],
                    (#[trigger] exports@[j]).descriptor.path@,
                    exports@[j].descriptor.width,
                    exports@[j].descriptor.depth,
                    exports@[j].data@,
                    exports@[j].valid_ranges@,
                ),
        decreases mems.mems@.len() - i,
    {
        let buffer = &mems.mems[i];
        proof {
            assert(mems@[i as int] == buffer.state());
            assert(buffer.state().wf());
            assert(buffer.state().bytes == buffer.data@);
            assert forall|k: usize| #[trigger] buffer.data@.dom().contains(k) implies k
                < buffer.descriptor.byte_len() by {
                assert(buffer.state().bytes.contains_key(k));
            }
        }
        let data = dense_data(&buffer.descriptor, &buffer.data);
        let valid_ranges = collect_valid_ranges(&buffer.data);
        let descriptor = StaticMemDescriptor {
            path: buffer.descriptor.path.clone(),
            width: buffer.descriptor.width,
            depth: buffer.descriptor.depth,
        };
        exports.push(StaticMemExport { descriptor, data, valid_ranges });
        i = i + 1;
    }
    exports
}

/// Hands the exports of `static_mem_exports` to `sink`, one call per
/// registered instance in the order of registration. Stops at the first
/// error of the sink and returns it; returns `Ok` when every call succeeded.
pub fn flush_static_mems<S: StaticMemSink>(mems: &StaticMems, sink: &mut S) -> (r: Result<(), String>)
    ensures
        final(sink).received().len() >= old(sink).received().len(),
        final(sink).received().take(old(sink).received().len() as int) == old(sink).received(),
        flush_calls(mems@, final(sink).received().skip(old(sink).received().len() as int), r),
{
    proof {
        use_type_invariant(mems);
    }
    let ghost before = sink.received();
    let exports = static_mem_exports(mems);
    let mut i: usize = 0;
    while i < exports.len()
        invariant
            i <= exports@.len(),
            exports@.len() == mems@.len(),
            valid_store(mems@),
            forall|j: int|
                0 <= j < exports@.len() ==> export_of(
                    mems@[j],
                    (#[trigger] exports@[j]).descriptor.path@,
                    exports@[j].descriptor.width,
                    exports@[j].descriptor.depth,
                    exports@[j].data@,
                    exports@[j].valid_ranges@,
                ),
            before == old(sink).received(),
            sink.received().len() == before.len() + i,
            sink.received().take(before.len() as int) == before,
            forall|j: int|
                0 <= j < i ==> export_of(
                    mems@[j],
                    (#[trigger] sink.received().skip(before.len() as int)[j]).path,
                    sink.received().skip(before.len() as int)[j].width,
                    sink.received().skip(before.len() as int)[j].depth,
                    sink.received().skip(before.len() as int)[j].data,
                    sink.received().skip(before.len() as int)[j].valid_ranges,
                ) && sink.received().skip(before.len() as int)[j].outcome is Ok,
        decreases exports@.len() - i,
    {
        let export = &exports[i];
        proof {
            assert(mems@[i as int].wf());
            lemma_runs_inside(
                export.valid_ranges@,
                mems@[i as int].bytes.dom(),
                export.data@.len() as int,
            );
            assert forall|k: int|
                0 <= k < export.data@.len() && !covered(export.valid_ranges@, k) implies #[trigger] export.data@[k]
                == 0 by {
                assert(!mems@[i as int].bytes.dom().contains(k as usize));
            }
        }
        let ghost mid = sink.received();
        let res = sink.write_static_mem(
            &export.descriptor,
            export.data.as_slice(),
            export.valid_ranges.as_slice(),
        );
        proof {
            assert(mid.take(before.len() as int) == before);
            assert(sink.received().take(before.len() as int) =~= before);
            assert(sink.received().skip(before.len() as int) =~= mid.skip(before.len() as int).push(
                sink.received().last(),
            ));
        }
        if res.is_err() {
            return res;
        }
        i = i + 1;
    }
    Ok(())
}

/// `find_instance` gives the position of the first instance with that
/// name, and `None` exactly when no instance has it.
pub proof fn lemma_find_instance(s: Seq<InstanceState>, path: Seq<char>, width: usize, depth: usize)
    ensures
        match find_instance(s, path, width, depth) {
            Some(i) => 0 <= i < s.len() && s[i].is(path, width, depth) && forall|j: int|
                0 <= j < i ==> !(#[trigger] s[j]).is(path, width, depth),
            None => forall|j: int| 0 <= j < s.len() ==> !(#[trigger] s[j]).is(path, width, depth),
        },
    decreases s.len(),
{
    if s.len() > 0 {
        let t = s.drop_last();
        lemma_find_instance(t, path, width, depth);
        assert forall|j: int| 0 <= j < t.len() implies t[j] == s[j] by {}
    }
}

/// Finding an instance in a prefix finds it in the whole sequence.
proof fn lemma_find_prefix(s: Seq<InstanceState>, n: int, path: Seq<char>, width: usize, depth: usize)
    requires
        0 <= n <= s.len(),
        find_instance(s.take(n), path, width, depth) is Some,
    ensures
        find_instance(s, path, width, depth) == find_instance(s.take(n), path, width, depth),
    decreases s.len() - n,
{
    if n < s.len() {
        assert(s.take(n + 1).drop_last() =~= s.take(n));
        lemma_find_prefix(s, n + 1, path, width, depth);
    } else {
        assert(s.take(n) =~= s);
    }
}

/// Two stores that name the same instances in the same order find each
/// instance at the same position.
pub proof fn lemma_find_same_names(s: Seq<InstanceState>, t: Seq<InstanceState>, path: Seq<char>, width: usize, depth: usize)
    requires
        s.len() == t.len(),
        forall|i: int|
            0 <= i < s.len() ==> (#[trigger] s[i]).path == t[i].path && s[i].width == t[i].width
                && s[i].depth == t[i].depth,
    ensures
        find_instance(s, path, width, depth) == find_instance(t, path, width, depth),
    decreases s.len(),
{
    if s.len() > 0 {
        let (s0, t0) = (s.drop_last(), t.drop_last());
        assert forall|i: int| 0 <= i < s0.len() implies (#[trigger] s0[i]).path == t0[i].path
            && s0[i].width == t0[i].width && s0[i].depth == t0[i].depth by {
            assert(s0[i] == s[i] && t0[i] == t[i]);
        }
        lemma_find_same_names(s0, t0, path, width, depth);
        assert(s.last() == s[s.len() - 1]);
    }
}

/// A read of an offset gives back the byte that the last taken write put
/// there.
pub proof fn lemma_read_after_write(s: Seq<InstanceState>, path: Seq<char>, width: usize, depth: usize, offset: usize, byte: u8)
    requires
        write_accepted(s, path, width, depth, offset),
    ensures
        read_result(written(s, path, width, depth, offset, byte), path, width, depth, offset) == Some(byte),
{
    let t = written(s, path, width, depth, offset, byte);
    lemma_find_instance(s, path, width, depth);
    lemma_find_same_names(s, t, path, width, depth);
}

/// A write changes what no other read gives: neither the other offsets of
/// the same instance nor any offset of another instance.
pub proof fn lemma_write_leaves_other_reads(
    s: Seq<InstanceState>,
    path: Seq<char>,
    width: usize,
    depth: usize,
    offset: usize,
    byte: u8,
    other_path: Seq<char>,
    other_width: usize,
    other_depth: usize,
    other_offset: usize,
)
    requires
        !(other_path == path && other_width == width && other_depth == depth && other_offset == offset),
    ensures
        read_result(written(s, path, width, depth, offset, byte), other_path, other_width, other_depth, other_offset)
            == read_result(s, other_path, other_width, other_depth, other_offset),
{
    let t = written(s, path, width, depth, offset, byte);
    lemma_find_instance(s, path, width, depth);
    lemma_find_instance(s, other_path, other_width, other_depth);
    lemma_find_same_names(s, t, other_path, other_width, other_depth);
}

/// Registering an instance a second time changes nothing.
pub proof fn lemma_register_idempotent(s: Seq<InstanceState>, path: Seq<char>, width: usize, depth: usize)
    ensures
        registered(registered(s, path, width, depth), path, width, depth) == registered(s, path, width, depth),
{
    let t = registered(s, path, width, depth);
    if find_instance(s, path, width, depth) is None {
        assert(t.drop_last() =~= s);
        assert(t.last().is(path, width, depth));
    }
}

/// A newly registered instance reads zero at every offset inside it and
/// refuses every offset outside it; registering leaves every other
/// instance as it was.
pub proof fn lemma_register_reads_zero(s: Seq<InstanceState>, path: Seq<char>, width: usize, depth: usize, offset: usize)
    requires
        find_instance(s, path, width, depth) is None,
    ensures
        read_result(registered(s, path, width, depth), path, width, depth, offset) == if (offset as int)
            < width * depth {
            Some(0u8)
        } else {
            None
        },
{
    let t = registered(s, path, width, depth);
    assert(t.drop_last() =~= s);
    assert(t.last().is(path, width, depth));
}

/// Registering an instance changes no read of another instance.
pub proof fn lemma_register_leaves_other_reads(
    s: Seq<InstanceState>,
    path: Seq<char>,
    width: usize,
    depth: usize,
    other_path: Seq<char>,
    other_width: usize,
    other_depth: usize,
    offset: usize,
)
    requires
        !(other_path == path && other_width == width && other_depth == depth),
    ensures
        read_result(registered(s, path, width, depth), other_path, other_width, other_depth, offset)
            == read_result(s, other_path, other_width, other_depth, offset),
{
    let t = registered(s, path, width, depth);
    if find_instance(s, path, width, depth) is None {
        assert(t.drop_last() =~= s);
        lemma_find_instance(s, other_path, other_width, other_depth);
    }
}

/// What a flush hands over for an instance is what reads of it give: at
/// every offset inside the instance, the data of its export holds the byte
/// a read returns.
pub proof fn lemma_export_matches_reads(
    s: Seq<InstanceState>,
    i: int,
    path: Seq<char>,
    width: usize,
    depth: usize,
    data: Seq<u8>,
    valid_ranges: Seq<StaticMemRange>,
    offset: usize,
)
    requires
        valid_store(s),
        0 <= i < s.len(),
        export_of(s[i], path, width, depth, data, valid_ranges),
        (offset as int) < width * depth,
    ensures
        read_result(s, path, width, depth, offset) == Some(data[offset as int]),
{
    lemma_find_instance(s, path, width, depth);
    let j = find_instance(s, path, width, depth).unwrap();
    if j != i {
        assert(!s[j].is(s[i].path, s[i].width, s[i].depth));
    }
}

/// The export of an instance is determined by the instance: two exports
/// of it carry the same identity, data and written ranges.
pub proof fn lemma_export_determined(
    st: InstanceState,
    path: Seq<char>,
    width: usize,
    depth: usize,
    data: Seq<u8>,
    valid_ranges: Seq<StaticMemRange>,
    other_path: Seq<char>,
    other_width: usize,
    other_depth: usize,
    other_data: Seq<u8>,
    other_ranges: Seq<StaticMemRange>,
)
    requires
        export_of(st, path, width, depth, data, valid_ranges),
        export_of(st, other_path, other_width, other_depth, other_data, other_ranges),
    ensures
        path == other_path && width == other_width && depth == other_depth,
        data == other_data,
        valid_ranges == other_ranges,
{
    lemma_maximal_runs_unique(valid_ranges, other_ranges, st.bytes.dom());
}

/// The targets `k` and `m` of a byte run name different bytes.
pub open spec fn distinct_targets(targets: Seq<(String, usize, usize, usize)>, k: int, m: int) -> bool {
    !(targets[k].0@ == targets[m].0@ && targets[k].1 == targets[m].1 && targets[k].2 == targets[m].2
        && targets[k].3 == targets[m].3)
}

/// Reading back a run of byte writes: when the first `n` writes were all
/// taken and no two of them went to the same byte, a read of the target of
/// write `k` gives `data[k]`.
pub proof fn lemma_read_after_write_bytes(
    s: Seq<InstanceState>,
    targets: Seq<(String, usize, usize, usize)>,
    data: Seq<u8>,
    n: int,
    k: int,
)
    requires
        0 <= k < n <= targets.len(),
        n <= data.len(),
        forall|j: int|
            0 <= j < n ==> write_accepted(
                written_all(s, targets, data, j),
                (#[trigger] targets[j]).0@,
                targets[j].1,
                targets[j].2,
                targets[j].3,
            ),
        forall|j: int, m: int| 0 <= j < m < n ==> #[trigger] distinct_targets(targets, j, m),
    ensures
        read_result(written_all(s, targets, data, n), targets[k].0@, targets[k].1, targets[k].2, targets[k].3)
            == Some(data[k]),
    decreases n,
{
    let t = targets[n - 1];
    let prev = written_all(s, targets, data, n - 1);
    if k == n - 1 {
        lemma_read_after_write(prev, t.0@, t.1, t.2, t.3, data[n - 1]);
    } else {
        assert(distinct_targets(targets, k, n - 1));
        lemma_write_leaves_other_reads(
            prev,
            t.0@,
            t.1,
            t.2,
            t.3,
            data[n - 1],
            targets[k].0@,
            targets[k].1,
            targets[k].2,
            targets[k].3,
        );
        lemma_read_after_write_bytes(s, targets, data, n - 1, k);
    }
}

/// A byte write is taken exactly when the named instance is registered and
/// the offset lies inside its `width * depth` bytes. A taken write records
/// its offset as written, whatever the byte (zero included), makes reads
/// of that offset give the byte, and changes nothing else: no other offset
/// of the instance, no other instance, no identity. A write that is not
/// taken changes nothing.
pub proof fn lemma_write_effect(s: Seq<InstanceState>, path: Seq<char>, width: usize, depth: usize, offset: usize, byte: u8)
    ensures
        write_accepted(s, path, width, depth, offset) <==> (find_instance(s, path, width, depth) is Some
            && (offset as int) < width * depth),
        ({
            let t = written(s, path, width, depth, offset, byte);
            &&& t.len() == s.len()
            &&& forall|j: int|
                0 <= j < s.len() ==> (#[trigger] t[j]).path == s[j].path && t[j].width == s[j].width
                    && t[j].depth == s[j].depth
            &&& !write_accepted(s, path, width, depth, offset) ==> t == s
            &&& write_accepted(s, path, width, depth, offset) ==> {
                let i = find_instance(s, path, width, depth).unwrap();
                &&& t[i].bytes.contains_key(offset)
                &&& t[i].bytes[offset] == byte
                &&& forall|o: usize|
                    o != offset ==> (#[trigger] t[i].bytes.contains_key(o) == s[i].bytes.contains_key(o))
                        && (s[i].bytes.contains_key(o) ==> t[i].bytes[o] == s[i].bytes[o])
                &&& forall|j: int| 0 <= j < s.len() && j != i ==> #[trigger] t[j] == s[j]
                &&& read_result(t, path, width, depth, offset) == Some(byte)
            }
        }),
{
    lemma_find_instance(s, path, width, depth);
    if write_accepted(s, path, width, depth, offset) {
        lemma_read_after_write(s, path, width, depth, offset, byte);
    }
}

/// Offset `o` is the target of write `k` of a run, into the instance at
/// position `i` of the store `s`.
pub open spec fn run_hits(s: Seq<InstanceState>, targets: Seq<(String, usize, usize, usize)>, k: int, i: int, o: usize) -> bool {
    find_instance(s, targets[k].0@, targets[k].1, targets[k].2) == Some(i) && targets[k].3 == o
}

/// After a run of byte writes that were all taken, every instance keeps
/// its identity and its written offsets are its earlier ones together with
/// the offsets of the writes aimed at it, whatever bytes they carried.
pub proof fn lemma_write_run_records_offsets(
    s: Seq<InstanceState>,
    targets: Seq<(String, usize, usize, usize)>,
    data: Seq<u8>,
    n: int,
)
    requires
        0 <= n <= targets.len(),
        n <= data.len(),
        forall|j: int|
            0 <= j < n ==> write_accepted(
                written_all(s, targets, data, j),
                (#[trigger] targets[j]).0@,
                targets[j].1,
                targets[j].2,
                targets[j].3,
            ),
    ensures
        ({
            let t = written_all(s, targets, data, n);
            &&& t.len() == s.len()
            &&& forall|j: int|
                0 <= j < s.len() ==> (#[trigger] t[j]).path == s[j].path && t[j].width == s[j].width
                    && t[j].depth == s[j].depth
            &&& forall|i: int, o: usize|
                0 <= i < s.len() ==> (#[trigger] t[i].bytes.contains_key(o) <==> (s[i].bytes.contains_key(o)
                    || exists|k: int| 0 <= k < n && #[trigger] run_hits(s, targets, k, i, o)))
        }),
    decreases n,
{
    if n > 0 {
        lemma_write_run_records_offsets(s, targets, data, n - 1);
        let prev = written_all(s, targets, data, n - 1);
        let tg = targets[n - 1];
        let t = written_all(s, targets, data, n);
        assert(t == written(prev, tg.0@, tg.1, tg.2, tg.3, data[n - 1]));
        lemma_write_effect(prev, tg.0@, tg.1, tg.2, tg.3, data[n - 1]);
        lemma_find_same_names(s, prev, tg.0@, tg.1, tg.2);
        lemma_find_instance(s, tg.0@, tg.1, tg.2);
        let hit = find_instance(s, tg.0@, tg.1, tg.2).unwrap();
        assert forall|i: int, o: usize| 0 <= i < s.len() implies (#[trigger] t[i].bytes.contains_key(o) <==> (
        s[i].bytes.contains_key(o) || exists|k: int| 0 <= k < n && #[trigger] run_hits(s, targets, k, i, o))) by {
            if i == hit && o == tg.3 {
                assert(run_hits(s, targets, n - 1, i, o));
            } else {
                assert(t[i].bytes.contains_key(o) == prev[i].bytes.contains_key(o));
                if exists|k: int| 0 <= k < n && #[trigger] run_hits(s, targets, k, i, o) {
                    let k = choose|k: int| 0 <= k < n && #[trigger] run_hits(s, targets, k, i, o);
                    if k == n - 1 {
                        assert(false);
                    }
                    assert(0 <= k < n - 1 && run_hits(s, targets, k, i, o));
                }
            }
        }
    }
}

/// Registering an instance that is not there adds it at the end with no
/// written offset (so a flush exports it with zero data and no written
/// range) and keeps every earlier instance as it was; registering one that
/// is there changes nothing. Either way the instance is registered
/// afterwards.
pub proof fn lemma_register_effect(s: Seq<InstanceState>, path: Seq<char>, width: usize, depth: usize)
    ensures
        find_instance(registered(s, path, width, depth), path, width, depth) is Some,
        find_instance(s, path, width, depth) is Some ==> registered(s, path, width, depth) == s,
        find_instance(s, path, width, depth) is None ==> {
            let r = registered(s, path, width, depth);
            &&& r.len() == s.len() + 1
            &&& r.take(s.len() as int) == s
            &&& r.last().is(path, width, depth)
            &&& r.last().bytes.dom() == Set::<usize>::empty()
            &&& find_instance(r, path, width, depth) == Some(s.len() as int)
        },
{
    let r = registered(s, path, width, depth);
    lemma_find_instance(s, path, width, depth);
    if find_instance(s, path, width, depth) is None {
        assert(r.drop_last() =~= s);
        assert(r.take(s.len() as int) =~= s);
        assert(r.last().bytes.dom() =~= Set::<usize>::empty());
    }
}

/// The export of an instance with no written offset has no written range
/// and all-zero data.
pub proof fn lemma_export_of_unwritten(
    st: InstanceState,
    path: Seq<char>,
    width: usize,
    depth: usize,
    data: Seq<u8>,
    valid_ranges: Seq<StaticMemRange>,
)
    requires
        st.bytes.dom() == Set::<usize>::empty(),
        export_of(st, path, width, depth, data, valid_ranges),
    ensures
        valid_ranges.len() == 0,
        forall|k: int| 0 <= k < data.len() ==> #[trigger] data[k] == 0,
{
    if valid_ranges.len() > 0 {
        assert(range_holds(valid_ranges[0], valid_ranges[0].offset as int));
        assert(st.bytes.dom().contains(valid_ranges[0].offset));
    }
}

/// Registering a list of instances keeps every earlier instance as it
/// was, leaves every listed instance registered, and adds only listed
/// instances, each with no written offset.
pub proof fn lemma_register_run_effect(s: Seq<InstanceState>, instances: Seq<(String, usize, usize)>, n: int)
    requires
        0 <= n <= instances.len(),
    ensures
        ({
            let r = registered_all(s, instances, n);
            &&& r.len() >= s.len()
            &&& r.take(s.len() as int) == s
            &&& forall|k: int|
                0 <= k < n ==> find_instance(r, (#[trigger] instances[k]).0@, instances[k].1, instances[k].2) is Some
            &&& forall|j: int|
                s.len() <= j < r.len() ==> (#[trigger] r[j]).bytes.dom() == Set::<usize>::empty() && exists|k: int|
                    0 <= k < n && r[j].is(instances[k].0@, instances[k].1, instances[k].2)
        }),
    decreases n,
{
    if n > 0 {
        lemma_register_run_effect(s, instances, n - 1);
        let prev = registered_all(s, instances, n - 1);
        let t = instances[n - 1];
        let r = registered_all(s, instances, n);
        assert(r == registered(prev, t.0@, t.1, t.2));
        lemma_register_effect(prev, t.0@, t.1, t.2);
        if find_instance(prev, t.0@, t.1, t.2) is None {
            assert(r.take(prev.len() as int) == prev);
            assert(r.take(s.len() as int) =~= prev.take(s.len() as int));
            assert forall|k: int| 0 <= k < n implies find_instance(r, (#[trigger] instances[k]).0@, instances[k].1, instances[k].2) is Some by {
                if k < n - 1 {
                    lemma_find_prefix(r, prev.len() as int, instances[k].0@, instances[k].1, instances[k].2);
                }
            }
            assert forall|j: int| s.len() <= j < r.len() implies (#[trigger] r[j]).bytes.dom() == Set::<usize>::empty()
                && exists|k: int| 0 <= k < n && r[j].is(instances[k].0@, instances[k].1, instances[k].2) by {
                if j < prev.len() {
                    assert(r[j] == prev[j]);
                    let k = choose|k: int| 0 <= k < n - 1 && prev[j].is(instances[k].0@, instances[k].1, instances[k].2);
                } else {
                    assert(r[j] == r.last());
                    assert(r[j].is(instances[n - 1].0@, instances[n - 1].1, instances[n - 1].2));
                }
            }
        }
    }
}

} // verus!
