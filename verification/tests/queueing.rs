use tzolkin::queue::{bucket, BatchQueue, NextBatch};

#[test]
fn the_batch_queue_answers_every_request_from_many_threads() {
    // The property that matters is not throughput but that a parked worker is
    // always woken with its own answer. 24 workers x 40 requests, each carrying
    // a distinguishable payload, stepped in a scrambled order with two batches
    // in flight.
    let mut q: BatchQueue<usize, (usize, usize)> = BatchQueue::new(16);
    let tickets: Vec<usize> = (0..24).map(|_| q.handle()).collect();
    let mut sent = [0usize; 24];
    let mut waiting = [false; 24];
    let mut flying: Vec<(Vec<usize>, Vec<usize>)> = Vec::new();
    let mut z = 50u64;
    let mut answered = 0;
    while answered < 24 * 40 {
        z = z.wrapping_mul(6364136223846793005).wrapping_add(1442695040888963407);
        let t = (z >> 33) as usize % 29;
        if t < 24 {
            let n = 1 + (t * 40 + sent[t]) % 29;
            if waiting[t] {
                if let Some(a) = q.collect(tickets[t]) {
                    assert_eq!(a.0, n);
                    assert_eq!(a.1, n, "a worker got someone else's answer");
                    waiting[t] = false;
                    sent[t] += 1;
                    answered += 1;
                }
            } else if sent[t] < 40 {
                q.submit(tickets[t], n);
                waiting[t] = true;
            }
        } else if flying.len() < 2 && q.next_batch(true, true) == NextBatch::Run {
            flying.push(q.claim());
        } else if !flying.is_empty() {
            let (ts, qs) = flying.remove((z >> 60) as usize % flying.len());
            q.deliver(&ts, qs.iter().map(|&n| (n, n)).collect());
        }
    }
    let st = q.stats;
    assert_eq!(st.queries, 24 * 40);
    assert!(st.batches > 0);
    assert!(st.queries >= st.batches);
    q.shutdown();
    assert_eq!(q.next_batch(false, true), NextBatch::Leave);
}

#[test]
fn batches_take_the_oldest_first() {
    let mut q: BatchQueue<u32, u32> = BatchQueue::new(2);
    let a = q.handle();
    let b = q.handle();
    let c = q.handle();
    q.submit(b, 20);
    q.submit(c, 30);
    q.submit(a, 10);
    let (tickets, requests) = q.claim();
    assert_eq!(tickets, vec![b, c]);
    assert_eq!(requests, vec![20, 30]);
    q.deliver(&tickets, vec![21, 31]);
    assert_eq!(q.collect(b), Some(21));
    assert_eq!(q.collect(a), None);
    assert_eq!(q.collect(c), Some(31));
    let (tickets, _) = q.claim();
    assert_eq!(tickets, vec![a]);
    assert_eq!(q.stats.hist[0], 1);
    assert_eq!(q.stats.hist[1], 1);
}

#[test]
fn a_stopped_queue_gives_requests_back() {
    let mut q: BatchQueue<u32, u32> = BatchQueue::new(0);
    assert_eq!(q.max_batch, 1);
    let a = q.handle();
    assert_eq!(q.next_batch(false, true), NextBatch::Sleep);
    q.submit(a, 5);
    assert_eq!(q.next_batch(false, true), NextBatch::Run);
    q.shutdown();
    assert_eq!(q.withdraw(a), Some(5));
    assert_eq!(q.next_batch(false, true), NextBatch::Leave);
    q.retire(a);
    assert_eq!(q.handle(), a);
}

#[test]
fn evaluations_and_withdrawals_add_up_to_what_was_submitted() {
    let mut q: BatchQueue<u32, u32> = BatchQueue::new(2);
    let tickets: Vec<usize> = (0..5).map(|_| q.handle()).collect();
    for (i, &t) in tickets.iter().enumerate() {
        q.submit(t, 10 + i as u32);
    }
    let (ts, qs) = q.claim();
    assert_eq!(qs, vec![10, 11]);
    q.shutdown();
    assert_eq!(q.withdraw(tickets[3]), Some(13));
    assert_eq!(q.withdraw(tickets[3]), None);
    assert_eq!(q.withdraw(tickets[0]), None);
    q.deliver(&ts, qs.iter().map(|&n| n + 100).collect());
    let (ts, qs) = q.claim();
    assert_eq!(qs, vec![12, 14]);
    q.deliver(&ts, qs.iter().map(|&n| n + 100).collect());
    assert_eq!((q.stats.queries, q.stats.bypassed), (4, 1));
    let got: Vec<Option<u32>> = tickets.iter().map(|&t| q.collect(t)).collect();
    assert_eq!(got, vec![Some(110), Some(111), Some(112), None, Some(114)]);
    assert!(tickets.iter().all(|&t| q.collect(t).is_none()));
}

#[test]
fn short_batches_linger_once() {
    let mut q: BatchQueue<u32, u32> = BatchQueue::new(4);
    let a = q.handle();
    q.submit(a, 1);
    assert_eq!(q.next_batch(false, true), NextBatch::Linger);
    assert_eq!(q.next_batch(true, true), NextBatch::Run);
    assert_eq!(q.next_batch(false, false), NextBatch::Run);
}

#[test]
fn buckets_double_in_size() {
    let sizes = [1u64, 2, 3, 4, 7, 8, 1023, 2048, 1_000_000];
    let found: Vec<usize> = sizes.iter().map(|&n| bucket(n)).collect();
    assert_eq!(found, vec![0, 1, 1, 2, 2, 3, 9, 11, 11]);
}
