use llm_samplers::samplers::tail_free::SampleTailFree;
use llm_samplers::samplers::top_p::SampleTopP;
use llm_samplers::types::{CanLogit, LogitEntry, LogitsBuffer, Sampler};

/// A single-precision scalar. The specification items of the trait are
/// never run; they only need to exist.
#[derive(Clone, Copy, Debug, PartialEq)]
struct Single(f32);

impl CanLogit for Single {
    fn zero() -> Self {
        Single(0.0)
    }
    fn one() -> Self {
        Single(1.0)
    }
    fn from_u32(n: u32) -> Self {
        Single(n as f32)
    }
    fn add(self, rhs: Self) -> Self {
        Single(self.0 + rhs.0)
    }
    fn sub(self, rhs: Self) -> Self {
        Single(self.0 - rhs.0)
    }
    fn div(self, rhs: Self) -> Self {
        Single(self.0 / rhs.0)
    }
    fn abs(self) -> Self {
        Single(self.0.abs())
    }
    fn exp(self) -> Self {
        Single(self.0.exp())
    }
    fn ge(self, rhs: Self) -> bool {
        self.0 >= rhs.0
    }
    fn gt(self, rhs: Self) -> bool {
        self.0 > rhs.0
    }
    fn is_zero(self) -> bool {
        self.0 == 0.0
    }
    fn zero_spec() -> Self {
        unreachable!()
    }
    fn one_spec() -> Self {
        unreachable!()
    }
    fn from_u32_spec(_: u32) -> Self {
        unreachable!()
    }
    fn add_spec(self, _: Self) -> Self {
        unreachable!()
    }
    fn sub_spec(self, _: Self) -> Self {
        unreachable!()
    }
    fn div_spec(self, _: Self) -> Self {
        unreachable!()
    }
    fn abs_spec(self) -> Self {
        unreachable!()
    }
    fn exp_spec(self) -> Self {
        unreachable!()
    }
    fn ge_spec(self, _: Self) -> bool {
        unreachable!()
    }
    fn gt_spec(self, _: Self) -> bool {
        unreachable!()
    }
    fn is_zero_spec(self) -> bool {
        unreachable!()
    }
    fn lemma_ge_transitive(_: Self, _: Self, _: Self) {
        unreachable!()
    }
    fn lemma_zero_is_zero() {
        unreachable!()
    }
    fn lemma_add_zeros(_: Self, _: Self) {
        unreachable!()
    }
}

fn current(probs: &[f32]) -> LogitsBuffer<u32, Single> {
    let entries: Vec<LogitEntry<u32, Single>> = probs
        .iter()
        .enumerate()
        .map(|(i, p)| LogitEntry { token_id: i as u32, logit: Single(p.ln()), prob: Single(*p) })
        .collect();
    LogitsBuffer::from_entries(entries, true).unwrap()
}

fn stale(logits: &[f32]) -> LogitsBuffer<u32, Single> {
    let entries: Vec<LogitEntry<u32, Single>> = logits
        .iter()
        .enumerate()
        .map(|(i, l)| LogitEntry { token_id: i as u32, logit: Single(*l), prob: Single(0.0) })
        .collect();
    LogitsBuffer::from_entries(entries, false).unwrap()
}

fn probs(buf: &LogitsBuffer<u32, Single>) -> Vec<f32> {
    buf.as_slice().iter().map(|e| e.prob.0).collect()
}

#[test]
fn float_top_p_boundary() {
    let mut buf = current(&[0.5, 0.3, 0.15, 0.05]);
    let mut sampler = SampleTopP::new(Single(0.8), 1);
    let out = sampler.sample(&mut buf).unwrap();
    assert_eq!(out.len(), 2);
    assert_eq!(probs(out), vec![0.5, 0.3]);
}

#[test]
fn float_top_p_min_keep_override() {
    let mut buf = current(&[0.5, 0.3, 0.15, 0.05]);
    let mut sampler = SampleTopP::new(Single(0.5), 3);
    let out = sampler.sample(&mut buf).unwrap();
    assert_eq!(out.len(), 3);
    assert_eq!(probs(out), vec![0.5, 0.3, 0.15]);
}

#[test]
fn float_top_p_default_target() {
    let sampler: SampleTopP<Single> = SampleTopP::default();
    assert_eq!(sampler, SampleTopP::new(Single(0.9), 1));
}

#[test]
fn float_softmax_sums_to_one() {
    let mut buf = stale(&[2.0, 1.0, 0.0, -1.0]);
    buf.ensure_softmax().unwrap();
    let p = probs(&buf);
    let total: f32 = p.iter().sum();
    assert!((total - 1.0).abs() < 1e-6);
    assert!((p[0] - 0.643_914_3).abs() < 1e-6);
    assert!((p[1] - 0.236_882_8).abs() < 1e-6);
    assert!(p[0] > p[1] && p[1] > p[2] && p[2] > p[3]);
}

#[test]
fn float_tail_free_noop_on_z_one() {
    let mut buf = stale(&[2.0, 1.0, 0.0, -1.0]);
    let before = buf.clone();
    let mut sampler = SampleTailFree::new(Single(1.0), 1);
    let out = sampler.sample(&mut buf).unwrap();
    assert_eq!(*out, before);
}

#[test]
fn float_tail_free_noop_below_three_entries() {
    for n in 0..3usize {
        let logits: Vec<f32> = (0..n).map(|i| -(i as f32)).collect();
        let mut buf = stale(&logits);
        let before = buf.clone();
        let mut sampler = SampleTailFree::new(Single(0.5), 0);
        assert_eq!(*sampler.sample(&mut buf).unwrap(), before);
    }
}

#[test]
fn float_tail_free_zero_variance_is_an_error() {
    let mut buf = current(&[0.4, 0.3, 0.2, 0.1]);
    let mut sampler = SampleTailFree::new(Single(0.5), 1);
    let exact = {
        let p = probs(&buf);
        (p[0] - p[1]) - (p[1] - p[2]) == 0.0 && (p[1] - p[2]) - (p[2] - p[3]) == 0.0
    };
    let result = sampler.sample(&mut buf);
    assert_eq!(result.is_err(), exact);
    let mut buf = current(&[0.25, 0.25, 0.25, 0.25]);
    assert!(sampler.sample(&mut buf).is_err());
    let mut buf = current(&[0.5, 0.375, 0.25, 0.125]);
    assert!(sampler.sample(&mut buf).is_err());
}

#[test]
fn float_tail_free_cuts_at_the_elbow() {
    let mut buf = current(&[0.5, 0.25, 0.125, 0.0625, 0.0625]);
    // First differences 0.25, 0.125, 0.0625, 0; second 0.125, 0.0625, 0.0625;
    // weights 0.5, 0.25, 0.25.
    let mut sampler = SampleTailFree::new(Single(0.5), 1);
    let out = sampler.sample(&mut buf).unwrap();
    assert_eq!(out.len(), 1);
    let mut buf = current(&[0.5, 0.25, 0.125, 0.0625, 0.0625]);
    let mut sampler = SampleTailFree::new(Single(0.75), 1);
    assert_eq!(sampler.sample(&mut buf).unwrap().len(), 2);
    let mut buf = current(&[0.5, 0.25, 0.125, 0.0625, 0.0625]);
    let mut sampler = SampleTailFree::new(Single(0.25), 0);
    assert_eq!(sampler.sample(&mut buf).unwrap().len(), 0);
}
