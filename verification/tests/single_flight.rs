use std::sync::atomic::AtomicUsize;
use std::sync::atomic::Ordering;
use std::sync::Arc;
use std::sync::Mutex;
use std::sync::RwLock;

use rayon::iter::IntoParallelIterator;
use rayon::iter::ParallelIterator;

use libfst_rust::hierarchy::SignalRef;
use libfst_rust::signal::Signal;
use libfst_rust::source::BlockScan;
use libfst_rust::source::LoadStep;
use libfst_rust::source::RawSample;
use libfst_rust::source::ScanRequest;
use libfst_rust::source::SignalSource;

/// A cache shared between threads with a reader that only one of them may
/// use at a time.
struct Shared {
    source: RwLock<SignalSource>,
    reader: Mutex<()>,
    scans: AtomicUsize,
}

impl Shared {
    fn new() -> Shared {
        Shared { source: RwLock::new(SignalSource::new()), reader: Mutex::new(()), scans: AtomicUsize::new(0) }
    }

    fn scan(&self, handle: u32) -> BlockScan {
        self.scans.fetch_add(1, Ordering::SeqCst);
        let samples = (0..50u64)
            .map(|t| RawSample { time: t, bytes: Some(format!("{:b}", t + handle as u64).into_bytes()), number: None })
            .collect();
        BlockScan { samples, completed: true }
    }

    fn load(&self, signal_ref: SignalRef, handle: u32) -> Arc<Signal> {
        let step = self.source.read().unwrap().load_signal(signal_ref, handle, false, false);
        let request: ScanRequest = match step {
            LoadStep::Ready(signal) => return signal,
            LoadStep::Scan(request) => request,
        };
        let _token = self.reader.lock().unwrap();
        let again = self.source.read().unwrap().load_signal(signal_ref, handle, false, false);
        match again {
            LoadStep::Ready(signal) => signal,
            LoadStep::Scan(_) => {
                let outcome = self.scan(request.handle);
                self.source.write().unwrap().complete_load(&request, &outcome).unwrap()
            }
        }
    }
}

#[test]
fn concurrent_requests_for_one_new_signal_scan_once() {
    let shared = Shared::new();
    let requests = 64usize;
    let handed: Vec<Arc<Signal>> = (0..requests).into_par_iter().map(|_| shared.load(SignalRef(3), 7)).collect();
    assert_eq!(shared.scans.load(Ordering::SeqCst), 1);
    assert_eq!(handed.len(), requests);
    for signal in &handed {
        assert_eq!(**signal, *handed[0]);
        assert!(Arc::ptr_eq(signal, &handed[0]));
    }
    assert_eq!(handed[0].changes.len(), 50);
}

#[test]
fn concurrent_requests_for_several_signals_scan_once_each() {
    let shared = Shared::new();
    let handed: Vec<(usize, Arc<Signal>)> = (0..96usize)
        .into_par_iter()
        .map(|i| (i % 3, shared.load(SignalRef(i % 3), (i % 3) as u32 + 1)))
        .collect();
    assert_eq!(shared.scans.load(Ordering::SeqCst), 3);
    for (id, signal) in &handed {
        let cached = shared.source.read().unwrap().cached_signal(SignalRef(*id)).unwrap();
        assert!(Arc::ptr_eq(signal, &cached));
    }
}
