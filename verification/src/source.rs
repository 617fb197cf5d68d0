//! Loading signals from scanned samples and serving them from a cache.
//!
//! Scanning the trace is the reader's work and happens outside this module.
//! The cache decides: a request is either served from memory, or answered
//! with the scan that the caller has to run and hand back.

use std::sync::Arc;
use rayon::iter::IntoParallelRefIterator;
use rayon::iter::ParallelIterator;
use vstd::prelude::*;
use vstd::utf8::decode_utf8;
use vstd::utf8::encode_utf8;
use vstd::utf8::valid_utf8;
use vstd::utf8::is_ascii_chars;
use vstd::utf8::is_ascii_chars_encode_utf8;
use vstd::utf8::encode_utf8_valid_utf8;
use vstd::utf8::encode_utf8_decode_utf8;
use crate::codes::FstHandle;
use crate::hierarchy::SignalRef;
use crate::shared::share;
use crate::shared::IdSet;
use crate::shared::SignalTable;
use crate::signal::bits_of_text;
use crate::signal::classify;
use crate::signal::is_binary_text;
use crate::signal::Signal;
use crate::signal::SignalValue;
use crate::signal::SignalValueView;

verus! {

/// One sample as the scan of the trace hands it out.
#[derive(Debug)]
pub struct RawSample {
    pub time: u64,
    /// The sample's text, without its terminator; `None` where the trace held
    /// no text for the sample.
    pub bytes: Option<Vec<u8>>,
    /// The IEEE-754 binary64 bit pattern of the text read as a real number,
    /// where it was read as one and is one.
    pub number: Option<u64>,
}

/// A [`RawSample`] with its text as a sequence of bytes.
pub struct RawSampleView {
    pub time: u64,
    pub bytes: Option<Seq<u8>>,
    pub number: Option<u64>,
}

impl View for RawSample {
    type V = RawSampleView;

    open spec fn view(&self) -> RawSampleView {
        RawSampleView {
            time: self.time,
            bytes: match self.bytes {
                Some(bytes) => Some(bytes@),
                None => None,
            },
            number: self.number,
        }
    }
}

/// What one scan of the trace for one handle gave.
#[derive(Debug)]
pub struct BlockScan {
    /// The samples of the handle, in the order of the trace.
    pub samples: Vec<RawSample>,
    /// Whether the scan ran to the end of the trace.
    pub completed: bool,
}

/// The samples of `samples` with their texts as sequences of bytes.
pub open spec fn samples_of(samples: Seq<RawSample>) -> Seq<RawSampleView> {
    samples.map_values(|s: RawSample| s@)
}

/// The text that a lossy reading gives for bytes that are not well-formed
/// UTF-8: the well-formed parts as they are, with U+FFFD in place of each
/// malformed sequence.
pub uninterp spec fn utf8_lossy(bytes: Seq<u8>) -> Seq<char>;

/// The text of a sample: its bytes read as UTF-8, lossily where they are not
/// well formed.
pub open spec fn sample_text(bytes: Seq<u8>) -> Seq<char> {
    if valid_utf8(bytes) {
        decode_utf8(bytes)
    } else {
        utf8_lossy(bytes)
    }
}

/// Reads `bytes` as text. It wraps `String::from_utf8_lossy`, which returns
/// well-formed UTF-8 as the string it encodes and replaces each malformed
/// sequence by U+FFFD otherwise.
#[verifier::external_body]
fn read_lossy(bytes: &Vec<u8>) -> (r: String)
    ensures
        r@ == if valid_utf8(bytes@) {
            decode_utf8(bytes@)
        } else {
            utf8_lossy(bytes@)
        },
{
    String::from_utf8_lossy(bytes).into_owned()
}

/// The value of one sample of a variable declared real (`is_real`) or string
/// (`is_string`). A sample without text is the empty string; any other is
/// classified by its text.
pub open spec fn sample_value(sample: RawSampleView, is_real: bool, is_string: bool)
    -> SignalValueView {
    match sample.bytes {
        None => SignalValueView::String(Seq::empty()),
        Some(bytes) => classify(sample_text(bytes), is_real, is_string, sample.number),
    }
}

/// The value changes that `samples` decode to, in the same order.
pub open spec fn decoded(samples: Seq<RawSampleView>, is_real: bool, is_string: bool) -> Seq<
    (u64, SignalValueView),
> {
    samples.map_values(|s: RawSampleView| (s.time, sample_value(s, is_real, is_string)))
}

/// One bit per byte: 1 for the digit one, 0 for anything else.
pub open spec fn bits_of_bytes(bytes: Seq<u8>) -> Seq<u8> {
    Seq::new(bytes.len(), |i: int| if bytes[i] == 0x31 { 1u8 } else { 0u8 })
}

/// Bytes that are all the digits zero and one are well-formed text of zeros
/// and ones, which writes the same bits.
pub proof fn lemma_binary_bytes(bytes: Seq<u8>)
    requires
        forall|i: int| 0 <= i < bytes.len() ==> (#[trigger] bytes[i] == 0x30 || bytes[i] == 0x31),
    ensures
        valid_utf8(bytes),
        is_binary_text(sample_text(bytes)),
        bits_of_text(sample_text(bytes)) == bits_of_bytes(bytes),
{
    let chars = Seq::new(bytes.len(), |i: int| if bytes[i] == 0x31 { '1' } else { '0' });
    assert(is_ascii_chars(chars));
    is_ascii_chars_encode_utf8(chars);
    assert(encode_utf8(chars) =~= bytes) by {
        assert forall|i: int| 0 <= i < bytes.len() implies encode_utf8(chars)[i] == bytes[i] by {
            assert(chars[i] as u8 == encode_utf8(chars)[i]);
        }
    }
    encode_utf8_valid_utf8(chars);
    encode_utf8_decode_utf8(chars);
    assert(sample_text(bytes) == chars);
    assert(bits_of_text(chars) =~= bits_of_bytes(bytes));
}

/// The bits that `bytes` write, where every byte is the digit zero or one.
fn binary_bits(bytes: &Vec<u8>) -> (r: Option<Vec<u8>>)
    ensures
        match r {
            Some(bits) => bits@ == bits_of_bytes(bytes@) && forall|i: int|
                0 <= i < bytes@.len() ==> (#[trigger] bytes@[i] == 0x30 || bytes@[i] == 0x31),
            None => exists|i: int|
                0 <= i < bytes@.len() && #[trigger] bytes@[i] != 0x30 && bytes@[i] != 0x31,
        },
{
    let mut bits: Vec<u8> = Vec::with_capacity(bytes.len());
    let mut i: usize = 0;
    while i < bytes.len()
        invariant
            i <= bytes@.len(),
            bits@ == bits_of_bytes(bytes@.take(i as int)),
            forall|k: int| 0 <= k < i ==> (#[trigger] bytes@[k] == 0x30 || bytes@[k] == 0x31),
        decreases bytes@.len() - i,
    {
        let b: u8 = bytes[i];
        if b != 0x30 && b != 0x31 {
            return None;
        }
        bits.push(if b == 0x31 { 1u8 } else { 0u8 });
        i += 1;
        assert(bits@ =~= bits_of_bytes(bytes@.take(i as int)));
    }
    assert(bytes@.take(i as int) =~= bytes@);
    Some(bits)
}

/// Decodes one sample of a variable declared real (`is_real`) or string
/// (`is_string`).
pub fn decode_sample(sample: &RawSample, is_real: bool, is_string: bool) -> (r: SignalValue)
    ensures
        r@ == sample_value(sample@, is_real, is_string),
{
    match &sample.bytes {
        None => SignalValue::String(String::new()),
        Some(bytes) => {
            if !is_string && !(is_real && sample.number.is_some()) {
                // Most samples are plain bit vectors: those need no text.
                match binary_bits(bytes) {
                    Some(bits) => {
                        proof {
                            lemma_binary_bytes(bytes@);
                        }
                        return SignalValue::Binary(bits);
                    },
                    None => {},
                }
            }
            let text = read_lossy(bytes);
            SignalValue::from_fst_string(text.as_str(), is_real, is_string, sample.number)
        },
    }
}

/// Builds the signal of a variable declared real (`is_real`) or string
/// (`is_string`) from what a scan of the trace for its handle gave. A scan
/// that did not run to the end gives no signal.
pub fn load_signal_from_fst(scan: &BlockScan, is_real: bool, is_string: bool) -> (r: Result<
    Signal,
    String,
>)
    ensures
        match r {
            Ok(signal) => scan.completed && signal@ == decoded(
                samples_of(scan.samples@),
                is_real,
                is_string,
            ),
            Err(e) => !scan.completed && e@ == "Failed to iterate blocks"@,
        },
{
    if !scan.completed {
        return Err("Failed to iterate blocks".to_owned());
    }
    let mut signal = Signal::with_capacity(scan.samples.len());
    let mut i: usize = 0;
    while i < scan.samples.len()
        invariant
            i <= scan.samples@.len(),
            signal@ == decoded(samples_of(scan.samples@), is_real, is_string).take(i as int),
        decreases scan.samples@.len() - i,
    {
        let sample = &scan.samples[i];
        let value = decode_sample(sample, is_real, is_string);
        signal.add_change(sample.time, value);
        i += 1;
        assert(signal@ =~= decoded(samples_of(scan.samples@), is_real, is_string).take(i as int));
    }
    assert(decoded(samples_of(scan.samples@), is_real, is_string).take(i as int) =~= decoded(
        samples_of(scan.samples@),
        is_real,
        is_string,
    ));
    Ok(signal)
}

/// A scan that the caller has to run: for `handle`, to load the signal of
/// identity `signal_ref` of a variable declared real (`is_real`) or string
/// (`is_string`).
#[derive(Debug, Clone, Copy, PartialEq, Eq, Structural)]
pub struct ScanRequest {
    pub signal_ref: SignalRef,
    pub handle: FstHandle,
    pub is_real: bool,
    pub is_string: bool,
}

/// The scans that a batch of requests needs, and whether the caller may hand
/// the loads out to several threads.
#[derive(Debug)]
pub struct BatchPlan {
    pub scans: Vec<ScanRequest>,
    pub parallel: bool,
}

/// The answer to a request for a signal.
#[derive(Debug)]
pub enum LoadStep {
    /// The signal is in memory: here it is.
    Ready(Arc<Signal>),
    /// The signal is not in memory: this scan gives it.
    Scan(ScanRequest),
}

/// The answer that a cache holding `cache` gives to `request`: the cached
/// signal of its identity where there is one, and otherwise the request
/// itself as the scan to run.
pub open spec fn answer(cache: Map<usize, Arc<Signal>>, request: ScanRequest) -> LoadStep {
    if cache.contains_key(request.signal_ref.0) {
        LoadStep::Ready(cache[request.signal_ref.0])
    } else {
        LoadStep::Scan(request)
    }
}

/// The scan that the request `request` stands for.
pub open spec fn scan_of(request: (SignalRef, FstHandle, bool, bool)) -> ScanRequest {
    ScanRequest {
        signal_ref: request.0,
        handle: request.1,
        is_real: request.2,
        is_string: request.3,
    }
}

/// The signal identities that `scans` load.
pub open spec fn planned_ids(scans: Seq<ScanRequest>) -> Set<usize> {
    Set::new(|id: usize| exists|i: int| 0 <= i < scans.len() && (#[trigger] scans[i]).signal_ref.0 == id)
}

/// The scans that a batch of requests needs: one for each signal identity that
/// is not among `cached`, for the first request that asks for it, in the order
/// of the requests.
pub open spec fn planned(cached: Set<usize>, requests: Seq<(SignalRef, FstHandle, bool, bool)>)
    -> Seq<ScanRequest>
    decreases requests.len(),
{
    if requests.len() == 0 {
        Seq::empty()
    } else {
        let earlier = planned(cached, requests.drop_last());
        let id = requests.last().0.0;
        if cached.contains(id) || planned_ids(earlier).contains(id) {
            earlier
        } else {
            earlier.push(scan_of(requests.last()))
        }
    }
}

/// What one request of a batch finds in `cache`: its identity with the cached
/// signal, or nothing where the signal is not cached.
pub open spec fn served_one(
    cache: Map<usize, Arc<Signal>>,
    request: (SignalRef, FstHandle, bool, bool),
) -> Option<(SignalRef, Arc<Signal>)> {
    if cache.contains_key(request.0.0) {
        Some((request.0, cache[request.0.0]))
    } else {
        None
    }
}

/// The signals that a batch of requests finds in `cache`: for each request
/// whose signal is cached its identity and the signal, in the order of the
/// requests. A request whose signal is not cached is passed over.
pub open spec fn served(
    cache: Map<usize, Arc<Signal>>,
    requests: Seq<(SignalRef, FstHandle, bool, bool)>,
) -> Seq<(SignalRef, Arc<Signal>)>
    decreases requests.len(),
{
    if requests.len() == 0 {
        Seq::empty()
    } else {
        let earlier = served(cache, requests.drop_last());
        match served_one(cache, requests.last()) {
            Some(entry) => earlier.push(entry),
            None => earlier,
        }
    }
}

/// Serves a batch on the threads of the global pool. It wraps
/// `par_iter().filter_map(..).collect()` of rayon, which applies the closure
/// to each request, on whichever thread, and collects what the closure gave
/// for the requests it did not pass over, in the order of the requests.
#[verifier::external_body]
fn serve_in_parallel(source: &SignalSource, requests: &Vec<(SignalRef, FstHandle, bool, bool)>) -> (r:
    Vec<(SignalRef, Arc<Signal>)>)
    ensures
        r@ == served(source@, requests@),
{
    requests.par_iter().filter_map(|request| source.serve(request)).collect()
}

/// The identities that `refs` name.
pub open spec fn ids_of(refs: Seq<SignalRef>) -> Set<usize> {
    Set::new(|id: usize| exists|i: int| 0 <= i < refs.len() && (#[trigger] refs[i]).0 == id)
}

/// The cache of loaded signals, keyed by signal identity. Variables that
/// alias one another share one identity and so one cached signal. Nothing
/// leaves the cache unless the caller asks for it.
pub struct SignalSource {
    signal_cache: SignalTable,
}

impl View for SignalSource {
    type V = Map<usize, Arc<Signal>>;

    closed spec fn view(&self) -> Map<usize, Arc<Signal>> {
        self.signal_cache@
    }
}

impl SignalSource {
    /// An empty cache.
    pub fn new() -> (r: Self)
        ensures
            r@ == Map::<usize, Arc<Signal>>::empty(),
    {
        SignalSource { signal_cache: SignalTable::new() }
    }

    /// The cached signal of identity `signal_ref`, if there is one.
    pub fn cached_signal(&self, signal_ref: SignalRef) -> (r: Option<Arc<Signal>>)
        ensures
            r == if self@.contains_key(signal_ref.0) {
                Some(self@[signal_ref.0])
            } else {
                None
            },
    {
        self.signal_cache.get(signal_ref.0)
    }

    /// Answers a request for the signal of identity `signal_ref`: the cached
    /// signal where there is one, and otherwise the scan that loads it. The
    /// cache is looked up by identity alone.
    pub fn load_signal(
        &self,
        signal_ref: SignalRef,
        handle: FstHandle,
        is_real: bool,
        is_string: bool,
    ) -> (step: LoadStep)
        ensures
            step == answer(self@, ScanRequest { signal_ref, handle, is_real, is_string }),
    {
        match self.signal_cache.get(signal_ref.0) {
            Some(signal) => LoadStep::Ready(signal),
            None => LoadStep::Scan(ScanRequest { signal_ref, handle, is_real, is_string }),
        }
    }

    /// Takes what the scan for `request` gave: builds the signal, caches it
    /// under the identity of the request and returns it. A scan that did not
    /// run to the end leaves the cache as it was.
    pub fn complete_load(&mut self, request: &ScanRequest, scan: &BlockScan) -> (r: Result<
        Arc<Signal>,
        String,
    >)
        ensures
            match r {
                Ok(signal) => {
                    &&& scan.completed
                    &&& signal@ == decoded(
                        samples_of(scan.samples@),
                        request.is_real,
                        request.is_string,
                    )
                    &&& final(self)@ == old(self)@.insert(request.signal_ref.0, signal)
                },
                Err(e) => {
                    &&& !scan.completed
                    &&& e@ == "Failed to iterate blocks"@
                    &&& final(self)@ == old(self)@
                },
            },
    {
        match load_signal_from_fst(scan, request.is_real, request.is_string) {
            Ok(signal) => {
                let shared = Arc::new(signal);
                self.signal_cache.insert(request.signal_ref.0, share(&shared));
                Ok(shared)
            },
            Err(e) => Err(e),
        }
    }

    /// The scans that a batch of requests needs, in the order of the
    /// requests: one for each identity that is not cached, however many
    /// requests ask for it. With `multi_threaded` the plan lets the caller
    /// hand the loads out to several threads.
    pub fn load_signals(
        &self,
        requests: &Vec<(SignalRef, FstHandle, bool, bool)>,
        multi_threaded: bool,
    ) -> (plan: BatchPlan)
        ensures
            plan.scans@ == planned(self@.dom(), requests@),
            plan.parallel == multi_threaded,
    {
        let mut scans: Vec<ScanRequest> = Vec::new();
        let mut ids = IdSet::new();
        let mut i: usize = 0;
        proof {
            assert(ids@ =~= planned_ids(scans@));
        }
        while i < requests.len()
            invariant
                i <= requests@.len(),
                scans@ == planned(self@.dom(), requests@.take(i as int)),
                ids@ == planned_ids(scans@),
            decreases requests@.len() - i,
        {
            let (signal_ref, handle, is_real, is_string) = requests[i];
            let ghost earlier = scans@;
            assert(requests@.take(i + 1).drop_last() =~= requests@.take(i as int));
            if !self.signal_cache.contains(signal_ref.0) {
                if ids.insert(signal_ref.0) {
                    let scan = ScanRequest { signal_ref, handle, is_real, is_string };
                    scans.push(scan);
                    proof {
                        assert(scans@[earlier.len() as int] == scan);
                        assert forall|id: usize| ids@.contains(id) implies planned_ids(
                            scans@,
                        ).contains(id) by {
                            if id == signal_ref.0 {
                                assert(scans@[earlier.len() as int].signal_ref.0 == id);
                            } else {
                                let k = choose|k: int|
                                    0 <= k < earlier.len() && (#[trigger] earlier[k]).signal_ref.0
                                        == id;
                                assert(scans@[k] == earlier[k]);
                            }
                        }
                        assert forall|id: usize| planned_ids(scans@).contains(id) implies ids@.contains(
                            id,
                        ) by {
                            let k = choose|k: int|
                                0 <= k < scans@.len() && (#[trigger] scans@[k]).signal_ref.0 == id;
                            if k < earlier.len() {
                                assert(earlier[k] == scans@[k]);
                            }
                        }
                        assert(ids@ =~= planned_ids(scans@));
                    }
                }
            }
            i += 1;
        }
        assert(requests@.take(i as int) =~= requests@);
        BatchPlan { scans, parallel: multi_threaded }
    }

    /// What `request` finds in the cache: its identity with the cached
    /// signal, or nothing where the signal is not cached.
    pub fn serve(&self, request: &(SignalRef, FstHandle, bool, bool)) -> (r: Option<
        (SignalRef, Arc<Signal>),
    >)
        ensures
            r == served_one(self@, *request),
    {
        match self.signal_cache.get(request.0.0) {
            Some(signal) => Some((request.0, signal)),
            None => None,
        }
    }

    /// The signals of a batch of requests that are cached, each with its
    /// identity, in the order of the requests. A request whose signal is not
    /// cached, because its scan failed or was never run, is passed over.
    /// With `multi_threaded` the requests are served on several threads; the
    /// result is the same.
    pub fn loaded_signals(
        &self,
        requests: &Vec<(SignalRef, FstHandle, bool, bool)>,
        multi_threaded: bool,
    ) -> (r: Vec<(SignalRef, Arc<Signal>)>)
        ensures
            r@ == served(self@, requests@),
    {
        if multi_threaded {
            return serve_in_parallel(self, requests);
        }
        let mut out: Vec<(SignalRef, Arc<Signal>)> = Vec::new();
        let mut i: usize = 0;
        while i < requests.len()
            invariant
                i <= requests@.len(),
                out@ == served(self@, requests@.take(i as int)),
            decreases requests@.len() - i,
        {
            assert(requests@.take(i + 1).drop_last() =~= requests@.take(i as int));
            match self.serve(&requests[i]) {
                Some(entry) => {
                    out.push(entry);
                },
                None => {},
            }
            i += 1;
        }
        assert(requests@.take(i as int) =~= requests@);
        out
    }

    /// Empties the cache.
    pub fn clear_cache(&mut self)
        ensures
            final(self)@ == Map::<usize, Arc<Signal>>::empty(),
    {
        self.signal_cache.clear();
    }

    /// Drops the signals of the identities `refs` from the cache. Every other
    /// signal stays.
    pub fn unload_signals(&mut self, refs: &[SignalRef])
        ensures
            final(self)@ == old(self)@.remove_keys(ids_of(refs@)),
    {
        let mut i: usize = 0;
        proof {
            assert(self@ =~= old(self)@.remove_keys(ids_of(refs@.take(0))));
        }
        while i < refs.len()
            invariant
                i <= refs@.len(),
                self@ == old(self)@.remove_keys(ids_of(refs@.take(i as int))),
            decreases refs@.len() - i,
        {
            let id: usize = refs[i].0;
            self.signal_cache.remove(id);
            proof {
                let before = ids_of(refs@.take(i as int));
                let after = ids_of(refs@.take(i + 1));
                assert(refs@.take(i + 1)[i as int].0 == id);
                assert forall|k: usize| after.contains(k) <==> before.contains(k) || k == id by {
                    if before.contains(k) {
                        let j = choose|j: int|
                            0 <= j < i && (#[trigger] refs@.take(i as int)[j]).0 == k;
                        assert(refs@.take(i + 1)[j].0 == k);
                    }
                    if after.contains(k) && k != id {
                        let j = choose|j: int|
                            0 <= j < i + 1 && (#[trigger] refs@.take(i + 1)[j]).0 == k;
                        assert(refs@.take(i as int)[j].0 == k);
                    }
                }
                assert(self@ =~= old(self)@.remove_keys(after));
            }
            i += 1;
        }
        assert(refs@.take(i as int) =~= refs@);
    }
}

/// What a run of `n` requests for one signal gives when they are served one
/// after another, as the reader's exclusive use forces them to be: each
/// request takes the answer of the cache, and a request that is told to scan
/// runs the scan, which gives `signal`, and caches what it gave. The result is
/// the cache afterwards, the number of scans run, and the signals handed to
/// the requests.
pub open spec fn serve_repeated(
    cache: Map<usize, Arc<Signal>>,
    request: ScanRequest,
    signal: Arc<Signal>,
    n: nat,
) -> (Map<usize, Arc<Signal>>, nat, Seq<Arc<Signal>>)
    decreases n,
{
    if n == 0 {
        (cache, 0, Seq::empty())
    } else {
        let (earlier, scans, handed) = serve_repeated(cache, request, signal, (n - 1) as nat);
        match answer(earlier, request) {
            LoadStep::Ready(cached) => (earlier, scans, handed.push(cached)),
            LoadStep::Scan(_) => (
                earlier.insert(request.signal_ref.0, signal),
                scans + 1,
                handed.push(signal),
            ),
        }
    }
}

/// Any number of requests for a signal that was never loaded make the reader
/// scan once, and every one of them gets the signal which that scan gave.
pub proof fn lemma_single_flight(
    cache: Map<usize, Arc<Signal>>,
    request: ScanRequest,
    signal: Arc<Signal>,
    n: nat,
)
    requires
        !cache.contains_key(request.signal_ref.0),
        n >= 1,
    ensures
        serve_repeated(cache, request, signal, n).0 == cache.insert(request.signal_ref.0, signal),
        serve_repeated(cache, request, signal, n).1 == 1,
        serve_repeated(cache, request, signal, n).2.len() == n,
        forall|i: int| 0 <= i < n ==> #[trigger] serve_repeated(cache, request, signal, n).2[i] == signal,
    decreases n,
{
    let id = request.signal_ref.0;
    let (earlier, scans, handed) = serve_repeated(cache, request, signal, (n - 1) as nat);
    if n > 1 {
        lemma_single_flight(cache, request, signal, (n - 1) as nat);
        assert(earlier.contains_key(id) && earlier[id] == signal);
        assert(answer(earlier, request) == LoadStep::Ready(signal));
    } else {
        assert(earlier == cache && scans == 0 && handed.len() == 0);
        assert(answer(earlier, request) == LoadStep::Scan(request));
    }
    let served = serve_repeated(cache, request, signal, n);
    assert(served.2 == handed.push(signal));
    assert forall|i: int| 0 <= i < n implies #[trigger] served.2[i] == signal by {
        if i < n - 1 {
            assert(served.2[i] == handed[i]);
        }
    }
}

/// Requests for a signal that is cached make the reader scan nothing, and
/// every one of them gets the cached signal.
pub proof fn lemma_cached_needs_no_scan(
    cache: Map<usize, Arc<Signal>>,
    request: ScanRequest,
    signal: Arc<Signal>,
    n: nat,
)
    requires
        cache.contains_key(request.signal_ref.0),
    ensures
        serve_repeated(cache, request, signal, n).0 == cache,
        serve_repeated(cache, request, signal, n).1 == 0,
        serve_repeated(cache, request, signal, n).2.len() == n,
        forall|i: int|
            0 <= i < n ==> #[trigger] serve_repeated(cache, request, signal, n).2[i]
                == cache[request.signal_ref.0],
    decreases n,
{
    if n > 0 {
        lemma_cached_needs_no_scan(cache, request, signal, (n - 1) as nat);
        let (earlier, scans, handed) = serve_repeated(cache, request, signal, (n - 1) as nat);
        let served = serve_repeated(cache, request, signal, n);
        assert(answer(earlier, request) == LoadStep::Ready(cache[request.signal_ref.0]));
        assert(served.2 == handed.push(cache[request.signal_ref.0]));
        assert forall|i: int| 0 <= i < n implies #[trigger] served.2[i]
            == cache[request.signal_ref.0] by {
            if i < n - 1 {
                assert(served.2[i] == handed[i]);
            }
        }
    }
}

/// Two requests for one signal identity get the same answer from the cache
/// once the signal is cached, whatever handle and kind they name: variables
/// that alias one another share one cached signal.
pub proof fn lemma_aliases_share_signal(
    cache: Map<usize, Arc<Signal>>,
    first: ScanRequest,
    second: ScanRequest,
)
    requires
        first.signal_ref == second.signal_ref,
        cache.contains_key(first.signal_ref.0),
    ensures
        answer(cache, first) == answer(cache, second),
        answer(cache, first) == LoadStep::Ready(cache[first.signal_ref.0]),
{
}

/// A batch plan scans for no identity that is cached and for no identity
/// twice, and it scans for every identity that is asked for and not cached.
pub proof fn lemma_plan_scans_once(
    cached: Set<usize>,
    requests: Seq<(SignalRef, FstHandle, bool, bool)>,
)
    ensures
        forall|i: int|
            0 <= i < planned(cached, requests).len() ==> !cached.contains(
                (#[trigger] planned(cached, requests)[i]).signal_ref.0,
            ),
        forall|i: int, j: int|
            0 <= i < j < planned(cached, requests).len() ==> (#[trigger] planned(
                cached,
                requests,
            )[i]).signal_ref != (#[trigger] planned(cached, requests)[j]).signal_ref,
        forall|k: int|
            0 <= k < requests.len() && !cached.contains((#[trigger] requests[k]).0.0)
                ==> planned_ids(planned(cached, requests)).contains(requests[k].0.0),
        forall|i: int|
            0 <= i < planned(cached, requests).len() ==> exists|k: int|
                0 <= k < requests.len() && (#[trigger] planned(cached, requests)[i]) == scan_of(
                    #[trigger] requests[k],
                ),
    decreases requests.len(),
{
    if requests.len() > 0 {
        let rest = requests.drop_last();
        let earlier = planned(cached, rest);
        let plan = planned(cached, requests);
        let id = requests.last().0.0;
        lemma_plan_scans_once(cached, rest);
        assert forall|i: int| 0 <= i < plan.len() implies !cached.contains(
            (#[trigger] plan[i]).signal_ref.0,
        ) by {
            if i < earlier.len() {
                assert(plan[i] == earlier[i]);
            }
        }
        assert forall|i: int, j: int| 0 <= i < j < plan.len() implies (#[trigger] plan[i]).signal_ref
            != (#[trigger] plan[j]).signal_ref by {
            assert(plan[i] == earlier[i]);
            if j < earlier.len() {
                assert(plan[j] == earlier[j]);
            } else {
                assert(earlier[i].signal_ref.0 != id);
            }
        }
        assert forall|k: int|
            0 <= k < requests.len() && !cached.contains(
                (#[trigger] requests[k]).0.0,
            ) implies planned_ids(plan).contains(requests[k].0.0) by {
            if k < rest.len() {
                assert(rest[k] == requests[k]);
                let w = choose|w: int|
                    0 <= w < earlier.len() && (#[trigger] earlier[w]).signal_ref.0
                        == requests[k].0.0;
                assert(plan[w] == earlier[w]);
            } else {
                if planned_ids(earlier).contains(id) {
                    let w = choose|w: int|
                        0 <= w < earlier.len() && (#[trigger] earlier[w]).signal_ref.0 == id;
                    assert(plan[w] == earlier[w]);
                } else {
                    assert(plan[earlier.len() as int].signal_ref.0 == id);
                }
            }
        }
        assert forall|i: int| 0 <= i < plan.len() implies exists|k: int|
            0 <= k < requests.len() && (#[trigger] plan[i]) == scan_of(#[trigger] requests[k]) by {
            if i < earlier.len() {
                assert(plan[i] == earlier[i]);
                let k = choose|k: int|
                    0 <= k < rest.len() && (#[trigger] earlier[i]) == scan_of(#[trigger] rest[k]);
                assert(rest[k] == requests[k]);
            } else {
                assert(plan[i] == scan_of(requests[requests.len() - 1]));
            }
        }
    }
}

/// What a batch finds in the cache is what the cache holds: each entry
/// pairs an identity that some request asks for with the cached signal of
/// that identity, and every request whose signal is cached has an entry.
pub proof fn lemma_served_entries(
    cache: Map<usize, Arc<Signal>>,
    requests: Seq<(SignalRef, FstHandle, bool, bool)>,
)
    ensures
        forall|k: int|
            0 <= k < served(cache, requests).len() ==> {
                let entry = #[trigger] served(cache, requests)[k];
                cache.contains_key(entry.0.0) && entry.1 == cache[entry.0.0]
            },
        forall|i: int|
            0 <= i < requests.len() && cache.contains_key((#[trigger] requests[i]).0.0)
                ==> exists|k: int|
                0 <= k < served(cache, requests).len() && (#[trigger] served(cache, requests)[k]).0
                    == requests[i].0,
    decreases requests.len(),
{
    if requests.len() > 0 {
        let rest = requests.drop_last();
        let earlier = served(cache, rest);
        let all = served(cache, requests);
        lemma_served_entries(cache, rest);
        assert forall|k: int| 0 <= k < all.len() implies {
            let entry = #[trigger] all[k];
            cache.contains_key(entry.0.0) && entry.1 == cache[entry.0.0]
        } by {
            if k < earlier.len() {
                assert(all[k] == earlier[k]);
            }
        }
        assert forall|i: int|
            0 <= i < requests.len() && cache.contains_key(
                (#[trigger] requests[i]).0.0,
            ) implies exists|k: int|
            0 <= k < all.len() && (#[trigger] all[k]).0 == requests[i].0 by {
            if i < rest.len() {
                assert(rest[i] == requests[i]);
                let k = choose|k: int| 0 <= k < earlier.len() && (#[trigger] earlier[k]).0 == rest[i].0;
                assert(all[k] == earlier[k]);
            } else {
                assert(all[earlier.len() as int].0 == requests[i].0);
            }
        }
    }
}

} // verus!
