use llm_samplers::fixed::Fixed;
use llm_samplers::samplers::top_p::SampleTopP;
use llm_samplers::types::{LogitEntry, LogitsBuffer, Sampler, SamplerError};

fn fx(raw: i64) -> Fixed {
    Fixed::from_raw(raw)
}

/// A buffer whose probabilities are given and current.
fn current(probs: &[i64]) -> LogitsBuffer<u32, Fixed> {
    let entries: Vec<LogitEntry<u32, Fixed>> = probs
        .iter()
        .enumerate()
        .map(|(i, p)| LogitEntry { token_id: 10 + i as u32, logit: fx(-(i as i64)), prob: fx(*p) })
        .collect();
    LogitsBuffer::from_entries(entries, true).unwrap()
}

/// A buffer of scores whose probabilities are yet to be computed.
fn stale(logits: &[i64]) -> LogitsBuffer<u32, Fixed> {
    let entries: Vec<LogitEntry<u32, Fixed>> = logits
        .iter()
        .enumerate()
        .map(|(i, l)| LogitEntry { token_id: 10 + i as u32, logit: fx(*l), prob: fx(0) })
        .collect();
    LogitsBuffer::from_entries(entries, false).unwrap()
}

fn probs(buf: &LogitsBuffer<u32, Fixed>) -> Vec<i64> {
    buf.as_slice().iter().map(|e| e.prob.raw()).collect()
}

fn ids(buf: &LogitsBuffer<u32, Fixed>) -> Vec<u32> {
    buf.as_slice().iter().map(|e| e.token_id).collect()
}

const QUARTET: [i64; 4] = [500_000_000, 300_000_000, 150_000_000, 50_000_000];

#[test]
fn top_p_boundary_is_inclusive() {
    let mut buf = current(&QUARTET);
    let mut sampler = SampleTopP::new(fx(800_000_000), 1);
    let out = sampler.sample(&mut buf).unwrap();
    assert_eq!(out.len(), 2);
    assert_eq!(probs(out), vec![500_000_000, 300_000_000]);
    assert_eq!(ids(out), vec![10, 11]);
}

#[test]
fn top_p_just_above_boundary_takes_one_more() {
    let mut buf = current(&QUARTET);
    let mut sampler = SampleTopP::new(fx(800_000_001), 1);
    assert_eq!(sampler.sample(&mut buf).unwrap().len(), 3);
}

#[test]
fn top_p_min_keep_overrides_threshold() {
    let mut buf = current(&QUARTET);
    let mut sampler = SampleTopP::new(fx(500_000_000), 3);
    let out = sampler.sample(&mut buf).unwrap();
    assert_eq!(out.len(), 3);
    assert_eq!(probs(out), vec![500_000_000, 300_000_000, 150_000_000]);
}

#[test]
fn top_p_without_min_keep_stops_at_threshold() {
    let mut buf = current(&QUARTET);
    let mut sampler = SampleTopP::new(fx(500_000_000), 1);
    assert_eq!(sampler.sample(&mut buf).unwrap().len(), 1);
}

#[test]
fn top_p_keeps_everything_when_threshold_is_never_reached() {
    let mut buf = current(&QUARTET);
    let mut sampler = SampleTopP::new(fx(2_000_000_000), 1);
    let out = sampler.sample(&mut buf).unwrap();
    assert_eq!(out.len(), 4);
    assert!(out.softmax_valid());
}

#[test]
fn top_p_min_keep_above_length_keeps_everything() {
    let mut buf = current(&QUARTET);
    let mut sampler = SampleTopP::new(fx(100_000_000), 9);
    let out = sampler.sample(&mut buf).unwrap();
    assert_eq!(out.len(), 4);
    assert!(out.softmax_valid());
}

#[test]
fn top_p_min_keep_zero_still_keeps_one() {
    let mut buf = current(&QUARTET);
    let mut sampler = SampleTopP::new(fx(100_000_000), 0);
    assert_eq!(sampler.sample(&mut buf).unwrap().len(), 1);
}

#[test]
fn top_p_single_entry_is_kept() {
    let mut buf = current(&[1_000_000_000]);
    let mut sampler = SampleTopP::new(fx(100_000_000), 0);
    let out = sampler.sample(&mut buf).unwrap();
    assert_eq!(out.len(), 1);
    assert!(out.softmax_valid());
    let mut buf = current(&[1_000_000_000]);
    let mut sampler = SampleTopP::new(fx(100_000_000), 5);
    assert_eq!(sampler.sample(&mut buf).unwrap().len(), 1);
}

#[test]
fn top_p_empty_current_buffer_is_unchanged() {
    let mut buf = current(&[]);
    let mut sampler = SampleTopP::new(fx(900_000_000), 1);
    let out = sampler.sample(&mut buf).unwrap();
    assert_eq!(out.len(), 0);
    assert!(out.softmax_valid());
}

#[test]
fn top_p_empty_stale_buffer_is_an_internal_error() {
    let mut buf = stale(&[]);
    let mut sampler = SampleTopP::new(fx(900_000_000), 1);
    let err = sampler.sample(&mut buf).unwrap_err();
    assert_eq!(
        err,
        SamplerError::InternalError(String::from(
            "Failed to ensure softmax before sampling: cannot compute softmax over an empty set of logits"
        ))
    );
    assert_eq!(buf.len(), 0);
    assert!(!buf.softmax_valid());
}

#[test]
fn top_p_truncation_marks_probabilities_stale() {
    let mut buf = current(&QUARTET);
    let mut sampler = SampleTopP::new(fx(800_000_000), 1);
    let out = sampler.sample(&mut buf).unwrap();
    assert_eq!(out.len(), 2);
    assert!(!out.softmax_valid());
}

#[test]
fn top_p_computes_softmax_when_stale() {
    let mut buf = stale(&[3_000_000_000, 1_000_000_000, 200_000_000, -1_000_000_000]);
    let mut sampler = SampleTopP::new(fx(900_000_000), 1);
    let out = sampler.sample(&mut buf).unwrap();
    assert_eq!(probs(out), vec![823_410_561, 111_436_501]);
    assert!(!out.softmax_valid());
}

#[test]
fn top_p_result_is_a_prefix_in_order() {
    let logits = [3_000_000_000, 1_000_000_000, 200_000_000, -1_000_000_000];
    let mut buf = stale(&logits);
    let before: Vec<(u32, i64)> =
        buf.as_slice().iter().map(|e| (e.token_id, e.logit.raw())).collect();
    let mut sampler = SampleTopP::new(fx(950_000_000), 1);
    let out = sampler.sample(&mut buf).unwrap();
    let after: Vec<(u32, i64)> =
        out.as_slice().iter().map(|e| (e.token_id, e.logit.raw())).collect();
    assert_eq!(after.len(), 3);
    assert!(after.len() <= before.len());
    assert_eq!(after, before[..after.len()].to_vec());
}

#[test]
fn top_p_never_goes_below_the_floor() {
    for min_keep in 0..7usize {
        for p in [1i64, 500_000_000, 800_000_000, 1_000_000_000, 3_000_000_000] {
            let mut buf = current(&QUARTET);
            let mut sampler = SampleTopP::new(fx(p), min_keep);
            let kept = sampler.sample(&mut buf).unwrap().len();
            assert!(kept <= 4);
            assert!(kept >= min_keep.min(4));
        }
    }
}

#[test]
fn top_p_second_pass_on_settled_output_removes_nothing() {
    let mut buf = stale(&[3_000_000_000, 1_000_000_000, 200_000_000, -1_000_000_000]);
    let mut sampler = SampleTopP::new(fx(900_000_000), 1);
    assert_eq!(sampler.sample(&mut buf).unwrap().len(), 2);
    let out = sampler.sample(&mut buf).unwrap();
    assert_eq!(out.len(), 2);
    assert_eq!(ids(out), vec![10, 11]);
    assert_eq!(probs(out), vec![880_797_078, 119_202_921]);
    assert!(out.softmax_valid());
}

#[test]
fn top_p_second_pass_at_the_floor_removes_nothing() {
    let mut buf = stale(&[1_098_612_289, 0, 0]);
    let mut sampler = SampleTopP::new(fx(700_000_000), 2);
    assert_eq!(sampler.sample(&mut buf).unwrap().len(), 2);
    assert_eq!(sampler.sample(&mut buf).unwrap().len(), 2);
}

#[test]
fn top_p_second_pass_renormalises_and_may_cut_again() {
    let mut buf = stale(&[1_098_612_289, 0, 0]);
    let mut sampler = SampleTopP::new(fx(700_000_000), 1);
    let out = sampler.sample(&mut buf).unwrap();
    assert_eq!(probs(out), vec![600_000_000, 199_999_999]);
    let out = sampler.sample(&mut buf).unwrap();
    assert_eq!(probs(out), vec![750_000_000]);
}

#[test]
fn top_p_default_is_nine_tenths_and_one() {
    let mut sampler: SampleTopP<Fixed> = SampleTopP::default();
    assert_eq!(sampler, SampleTopP::new(fx(900_000_000), 1));
    let mut buf = current(&[600_000_000, 300_000_000, 60_000_000, 40_000_000]);
    assert_eq!(sampler.sample(&mut buf).unwrap().len(), 2);
    let mut buf = current(&[600_000_000, 299_999_999, 60_000_001, 40_000_000]);
    assert_eq!(sampler.sample(&mut buf).unwrap().len(), 3);
}

#[test]
fn top_p_builders_replace_one_parameter() {
    let base = SampleTopP::new(fx(900_000_000), 1);
    assert_eq!(base.p(fx(500_000_000)), SampleTopP::new(fx(500_000_000), 1));
    assert_eq!(base.min_keep(3), SampleTopP::new(fx(900_000_000), 3));
    assert_eq!(
        SampleTopP::<Fixed>::default().p(fx(500_000_000)).min_keep(3),
        SampleTopP::new(fx(500_000_000), 3)
    );
}

#[test]
fn top_p_leaves_the_sampler_unchanged() {
    let mut sampler = SampleTopP::new(fx(800_000_000), 1);
    let mut buf = current(&QUARTET);
    sampler.sample(&mut buf).unwrap();
    assert_eq!(sampler, SampleTopP::new(fx(800_000_000), 1));
}

#[test]
fn samplers_chain_through_the_returned_buffer() {
    let mut buf = current(&QUARTET);
    let mut wide = SampleTopP::new(fx(950_000_000), 1);
    let mut narrow = SampleTopP::new(fx(100_000_000), 2);
    let out = wide.sample(&mut buf).unwrap();
    assert_eq!(out.len(), 3);
    out.set_softmax(true);
    let out = narrow.sample(out).unwrap();
    assert_eq!(out.len(), 2);
    assert_eq!(buf.len(), 2);
}
