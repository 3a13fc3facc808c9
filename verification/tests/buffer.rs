use udon::buffer::{ProducerAction, RingBuffer, DEF_BUFFER_SIZE};
use udon::player::Player;
use udon::source::{ChannelCount, Source};

fn ramp(len: usize) -> Vec<u32> {
    (0..len).map(|i| (i as f32).to_bits()).collect()
}

/// Runs the producer whenever it has something to do, and then one step of
/// the consumer, until the request is done with.
fn pull(ring: &mut RingBuffer, source: &mut Player, staging: &mut Vec<u32>, out: &mut [u32]) -> usize {
    let mut total = 0;
    loop {
        if ring.producer_action() == ProducerAction::Fill {
            ring.fill(source, staging);
        }
        let served = ring.serve_from(out, total);
        total = served.count;
        if served.done {
            return total;
        }
    }
}

#[test]
fn buffer_eos() {
    let mut source = Player::new(ramp(100), ChannelCount::mono());
    let mut ring = RingBuffer::with_capacity(32);
    let mut staging = Vec::new();
    let mut heard = Vec::new();
    let mut sum = 0;
    loop {
        let mut out = [0u32; 13];
        let n = pull(&mut ring, &mut source, &mut staging, &mut out);
        heard.extend_from_slice(&out[..n]);
        sum += n;
        if n < 13 {
            break;
        }
    }
    assert_eq!(sum, 100);
    assert_eq!(heard, ramp(100));
    let mut out = [0u32; 13];
    assert_eq!(pull(&mut ring, &mut source, &mut staging, &mut out), 0);
    assert_eq!(pull(&mut ring, &mut source, &mut staging, &mut out), 0);
    assert_eq!(ring.producer_action(), ProducerAction::Exit);
}

#[test]
fn buffer_hands_out_what_was_put_in() {
    for capacity in [1usize, 2, 3, 7, 64] {
        for chunk in [1usize, 2, 5, 9] {
            let mut source = Player::new(ramp(50), ChannelCount::mono());
            let mut ring = RingBuffer::with_capacity(capacity);
            let mut staging = Vec::new();
            let mut heard = Vec::new();
            loop {
                let mut out = vec![0u32; chunk];
                let n = pull(&mut ring, &mut source, &mut staging, &mut out);
                heard.extend_from_slice(&out[..n]);
                if n < chunk {
                    break;
                }
            }
            assert_eq!(heard, ramp(50));
        }
    }
}

#[test]
fn buffer_fills_up_to_its_capacity_and_then_waits() {
    let mut source = Player::new(ramp(10), ChannelCount::mono());
    let mut ring = RingBuffer::with_capacity(4);
    let mut staging = Vec::new();
    assert_eq!(ring.capacity(), 4);
    assert_eq!(ring.stored_len(), 0);
    assert_eq!(ring.producer_action(), ProducerAction::Fill);
    ring.fill(&mut source, &mut staging);
    assert_eq!(ring.stored_len(), 4);
    assert_eq!(ring.producer_action(), ProducerAction::Wait);
    let mut out = [0u32; 3];
    let served = ring.serve(&mut out);
    assert_eq!((served.count, served.done), (3, true));
    assert_eq!(out.to_vec(), ramp(3));
    assert_eq!(ring.stored_len(), 1);
    assert_eq!(ring.producer_action(), ProducerAction::Fill);
    ring.fill(&mut source, &mut staging);
    assert_eq!(ring.stored_len(), 4);
    let mut out = [0u32; 4];
    let served = ring.serve(&mut out);
    assert_eq!((served.count, served.done), (4, true));
    assert_eq!(out.to_vec(), ramp(7)[3..].to_vec());
}

#[test]
fn buffer_serves_what_it_holds_when_asked_for_more() {
    let mut source = Player::new(ramp(10), ChannelCount::mono());
    let mut ring = RingBuffer::with_capacity(4);
    let mut staging = Vec::new();
    ring.fill(&mut source, &mut staging);
    let mut out = [99u32; 6];
    let served = ring.serve(&mut out);
    assert_eq!((served.count, served.done), (4, false));
    assert_eq!(out[..4].to_vec(), ramp(4));
    assert_eq!(out[4..], [99, 99]);
    let served = ring.serve(&mut out[4..]);
    assert_eq!((served.count, served.done), (0, false));
}

#[test]
fn buffer_is_sealed_by_a_short_read() {
    let mut source = Player::new(ramp(3), ChannelCount::mono());
    let mut ring = RingBuffer::with_capacity(8);
    let mut staging = Vec::new();
    ring.fill(&mut source, &mut staging);
    assert_eq!(ring.stored_len(), 3);
    assert_eq!(ring.producer_action(), ProducerAction::Exit);
    let mut out = [99u32; 5];
    let served = ring.serve(&mut out);
    assert_eq!((served.count, served.done), (3, true));
    assert_eq!(out[..3].to_vec(), ramp(3));
    let served = ring.serve(&mut out);
    assert_eq!((served.count, served.done), (0, true));
}

#[test]
fn buffer_producer_stops_once_the_ring_is_dropped() {
    let mut ring = RingBuffer::with_capacity(DEF_BUFFER_SIZE);
    assert_eq!(ring.capacity(), 4800);
    assert_eq!(ring.producer_action(), ProducerAction::Fill);
    ring.close();
    assert_eq!(ring.producer_action(), ProducerAction::Exit);
}

#[test]
fn buffer_over_an_empty_source_ends_at_once() {
    let mut source = Player::new(Vec::new(), ChannelCount::mono());
    let mut ring = RingBuffer::with_capacity(4);
    let mut staging = Vec::new();
    let mut out = [0u32; 2];
    assert_eq!(pull(&mut ring, &mut source, &mut staging, &mut out), 0);
}

#[test]
fn buffer_step_carries_the_total_of_the_request() {
    let mut source = Player::new(ramp(9), ChannelCount::mono());
    let mut ring = RingBuffer::with_capacity(4);
    let mut staging = Vec::new();
    let mut out = [99u32; 7];
    ring.fill(&mut source, &mut staging);
    let served = ring.serve_from(&mut out, 0);
    assert_eq!((served.count, served.done), (4, false));
    ring.fill(&mut source, &mut staging);
    let served = ring.serve_from(&mut out, served.count);
    assert_eq!((served.count, served.done), (7, true));
    assert_eq!(out.to_vec(), ramp(7));
    ring.fill(&mut source, &mut staging);
    let mut out = [99u32; 7];
    let served = ring.serve_from(&mut out, 0);
    assert_eq!((served.count, served.done), (2, true));
    assert_eq!(out[..2].to_vec(), ramp(9)[7..].to_vec());
    assert_eq!(out[2..], [99u32; 5]);
    let served = ring.serve_from(&mut out, 7);
    assert_eq!((served.count, served.done), (7, true));
}

#[test]
fn buffer_delivers_the_source_whatever_the_order_of_the_steps() {
    // Any interleaving of fills and serves hands out the samples of the
    // source, in order, and each request returns what it asked for or what
    // was left.
    for pattern in 0..64u32 {
        let mut source = Player::new(ramp(23), ChannelCount::mono());
        let mut ring = RingBuffer::with_capacity(5);
        let mut staging = Vec::new();
        let mut heard = Vec::new();
        let mut turn = 0;
        loop {
            let len = 1 + ((pattern >> (turn % 6)) & 3) as usize;
            let mut out = vec![0u32; len];
            let mut total = 0;
            loop {
                let fill_first = (pattern >> ((turn + total) % 6)) & 1 == 1;
                if fill_first && ring.producer_action() == ProducerAction::Fill {
                    ring.fill(&mut source, &mut staging);
                }
                let served = ring.serve_from(&mut out, total);
                total = served.count;
                if served.done {
                    break;
                }
                if ring.producer_action() == ProducerAction::Fill {
                    ring.fill(&mut source, &mut staging);
                }
            }
            assert_eq!(total, len.min(23 - heard.len()));
            heard.extend_from_slice(&out[..total]);
            turn += 1;
            if total < len {
                break;
            }
        }
        assert_eq!(heard, ramp(23));
    }
}
