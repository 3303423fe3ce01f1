use floem::signal::{create_signal, Computation, ReadSignal, SignalStore, WriteSignal};

#[test]
fn signal_holds_its_value() {
    let mut store = SignalStore::new();
    let (read, write) = create_signal(&mut store, 7);
    assert_eq!(read.get(&mut store), Some(7));
    assert!(write.update(&mut store, |v| v * 3 + 1));
    assert_eq!(read.get(&mut store), Some(22));
}

#[test]
fn handles_of_another_store_find_nothing() {
    let mut store = SignalStore::new();
    let mut other = SignalStore::new();
    let (read, write) = create_signal(&mut store, 1);
    assert_eq!(read.index, 0);
    assert_eq!(write.index, 0);
    assert_eq!(read.get(&mut other), None);
    assert!(!write.update(&mut other, |v| v + 1));
    assert_eq!(ReadSignal { index: 5 }.get(&mut store), None);
    assert!(!WriteSignal { index: 5 }.update(&mut store, |v| v + 1));
    assert_eq!(read.get(&mut store), Some(1));
}

#[test]
fn a_write_queues_the_readers_and_runs_nothing() {
    let mut store = SignalStore::new();
    let (read, write) = create_signal(&mut store, 0);
    let reader = store.create_computation();
    let bystander = store.create_computation();
    assert_eq!((reader, bystander), (Computation(0), Computation(1)));

    assert!(store.begin(reader));
    assert_eq!(read.get(&mut store), Some(0));
    store.end();

    assert!(write.update(&mut store, |v| v + 1));
    assert_eq!(store.drain(), vec![reader]);
    assert!(store.drain().is_empty());
}

#[test]
fn many_writes_queue_a_reader_once() {
    let mut store = SignalStore::new();
    let (read, write) = create_signal(&mut store, 0);
    let first = store.create_computation();
    let second = store.create_computation();
    for c in [first, second] {
        assert!(store.begin(c));
        read.get(&mut store);
        store.end();
    }
    for _ in 0..5 {
        assert!(write.update(&mut store, |v| v + 1));
    }
    assert_eq!(read.get(&mut store), Some(5));
    assert_eq!(store.drain(), vec![first, second]);
    assert!(store.drain().is_empty());

    // The next batch starts afresh.
    assert!(write.update(&mut store, |v| v + 1));
    assert!(write.update(&mut store, |v| v + 1));
    assert_eq!(store.drain(), vec![first, second]);
}

#[test]
fn readers_are_queued_in_the_order_they_became_stale() {
    let mut store = SignalStore::new();
    let (read_a, write_a) = create_signal(&mut store, 0);
    let (read_b, write_b) = create_signal(&mut store, 0);
    let of_a = store.create_computation();
    let of_b = store.create_computation();
    let of_both = store.create_computation();
    assert!(store.begin(of_a));
    read_a.get(&mut store);
    store.end();
    assert!(store.begin(of_b));
    read_b.get(&mut store);
    store.end();
    assert!(store.begin(of_both));
    read_a.get(&mut store);
    read_b.get(&mut store);
    store.end();

    write_b.update(&mut store, |v| v + 1);
    write_a.update(&mut store, |v| v + 1);
    assert_eq!(store.drain(), vec![of_b, of_both, of_a]);
}

#[test]
fn an_evaluation_forgets_what_it_read_before() {
    let mut store = SignalStore::new();
    let (read_a, write_a) = create_signal(&mut store, 0);
    let (read_b, write_b) = create_signal(&mut store, 0);
    let c = store.create_computation();

    assert!(store.begin(c));
    read_a.get(&mut store);
    store.end();

    // This time it reads the other signal only.
    assert!(store.begin(c));
    read_b.get(&mut store);
    store.end();

    write_a.update(&mut store, |v| v + 1);
    assert!(store.drain().is_empty());
    write_b.update(&mut store, |v| v + 1);
    assert_eq!(store.drain(), vec![c]);
}

#[test]
fn a_read_outside_an_evaluation_is_not_recorded() {
    let mut store = SignalStore::new();
    let (read, write) = create_signal(&mut store, 0);
    let c = store.create_computation();
    assert_eq!(read.get(&mut store), Some(0));
    write.update(&mut store, |v| v + 1);
    assert!(store.drain().is_empty());
    assert!(store.begin(c));
    store.end();
    write.update(&mut store, |v| v + 1);
    assert!(store.drain().is_empty());
}

#[test]
fn evaluations_do_not_nest() {
    let mut store = SignalStore::new();
    let (read, write) = create_signal(&mut store, 0);
    let outer = store.create_computation();
    let inner = store.create_computation();
    assert!(!store.begin(Computation(2)));
    assert!(store.begin(outer));
    assert!(!store.begin(inner));
    read.get(&mut store);
    store.end();
    assert!(store.begin(inner));
    store.end();
    write.update(&mut store, |v| v + 1);
    assert_eq!(store.drain(), vec![outer]);
}

#[test]
fn signals_made_later_know_the_computations() {
    let mut store = SignalStore::new();
    let c = store.create_computation();
    let (read, write) = create_signal(&mut store, 3);
    let d = store.create_computation();
    assert!(store.begin(d));
    assert_eq!(read.get(&mut store), Some(3));
    store.end();
    write.update(&mut store, |v| v - 3);
    assert_eq!(store.drain(), vec![d]);
    assert!(store.begin(c));
    assert_eq!(read.get(&mut store), Some(0));
    store.end();
    write.update(&mut store, |v| v + 1);
    assert_eq!(store.drain(), vec![c, d]);
}
