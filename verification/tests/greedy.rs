use std::cell::RefCell;

use unltd_inference::error::LoadError;
use unltd_inference::greedy::{argmax, top5, DecodeError, GreedyLoop};
use unltd_inference::ieee::F32;
use unltd_inference::tokenizer::gpt2::TokenError;

fn bits(v: &[f32]) -> Vec<F32> {
    v.iter().map(|x| F32::from_bits(x.to_bits())).collect()
}

fn next_mod5(seen: &RefCell<Vec<u32>>) -> impl Fn(u32) -> Result<Vec<F32>, LoadError> + '_ {
    move |t| {
        seen.borrow_mut().push(t);
        let next = (t + 1) % 5;
        let mut out = vec![0.0f32; 5];
        out[next as usize] = 1.0;
        Ok(bits(&out))
    }
}

#[test]
fn argmax_first_max_on_ties() {
    assert_eq!(argmax(&bits(&[1.0, 3.0, 3.0, 2.0])), 1);
    assert_eq!(argmax(&bits(&[-1.0, 0.0, -0.5])), 1);
    assert_eq!(argmax(&bits(&[7.5])), 0);
}

#[test]
fn stops_at_eos() {
    let seen = RefCell::new(Vec::new());
    let out = {
        let mut g = GreedyLoop::new(next_mod5(&seen), Some(0), 10);
        g.prefill(&[1, 2]).expect("prefill");
        let mut out = Vec::new();
        while let Some(t) = g.next_token().expect("step") {
            out.push(t);
        }
        assert!(g.stopped_by_eos());
        out
    };
    assert_eq!(out, vec![3, 4, 0]);
    assert_eq!(seen.into_inner(), vec![1, 2, 3, 4]);
}

#[test]
fn stops_at_max_tokens() {
    let seen = RefCell::new(Vec::new());
    let out = {
        let mut g = GreedyLoop::new(next_mod5(&seen), None, 7);
        g.prefill(&[4]).expect("prefill");
        let mut out = Vec::new();
        while let Some(t) = g.next_token().expect("step") {
            out.push(t);
        }
        assert!(!g.stopped_by_eos());
        out
    };
    assert_eq!(out, vec![0, 1, 2, 3, 4, 0, 1]);
    assert_eq!(seen.into_inner(), vec![4, 0, 1, 2, 3, 4, 0]);
}

#[test]
fn deterministic_generation() {
    let run = || {
        let seen = RefCell::new(Vec::new());
        let mut g = GreedyLoop::new(next_mod5(&seen), None, 12);
        g.prefill(&[2, 3]).expect("prefill");
        let mut out = Vec::new();
        while let Some(t) = g.next_token().expect("step") {
            out.push(t);
        }
        out
    };
    assert_eq!(run(), run());
}

#[test]
fn zero_max_tokens() {
    let seen = RefCell::new(Vec::new());
    let mut g = GreedyLoop::new(next_mod5(&seen), None, 0);
    g.prefill(&[1]).expect("prefill");
    assert_eq!(g.next_token().expect("step"), None);
    assert!(!g.stopped_by_eos());
}

#[test]
fn refuses_empty_prompt() {
    let seen = RefCell::new(Vec::new());
    let mut g = GreedyLoop::new(next_mod5(&seen), None, 5);
    assert!(g.prefill(&[]).is_err());
}

#[test]
fn logits_visible_after_prefill() {
    let seen = RefCell::new(Vec::new());
    let mut g = GreedyLoop::new(next_mod5(&seen), None, 1);
    g.prefill(&[1, 2]).expect("prefill");
    assert_eq!(argmax(g.logits()), 3);
}

#[test]
fn an_error_of_the_model_is_handed_on() {
    let mut g = GreedyLoop::new(
        |t: u32| {
            if t == 3 {
                Err(LoadError::UnknownGgmlType(t))
            } else {
                Ok(bits(&[0.0, 0.0, 0.0, 1.0]))
            }
        },
        None,
        4,
    );
    g.prefill(&[1]).expect("prefill");
    assert!(matches!(g.next_token(), Err(LoadError::UnknownGgmlType(3))));
}

#[test]
fn every_token_of_a_prompt_is_handed_over_until_one_is_refused() {
    let seen = RefCell::new(Vec::new());
    let mut g = GreedyLoop::new(
        |t: u32| {
            seen.borrow_mut().push(t);
            if t == 3 {
                Err(LoadError::UnknownGgmlType(t))
            } else {
                Ok(bits(&[t as f32]))
            }
        },
        None,
        4,
    );
    assert!(matches!(g.prefill(&[1, 2, 3, 4]), Err(LoadError::UnknownGgmlType(3))));
    assert_eq!(*seen.borrow(), vec![1, 2, 3]);
    assert_eq!(g.logits().len(), 1);
    assert_eq!(g.logits()[0].bits, 2.0f32.to_bits());
    g.prefill(&[5, 6]).expect("prefill");
    assert_eq!(*seen.borrow(), vec![1, 2, 3, 5, 6]);
}

#[test]
fn a_prompt_is_handed_to_a_model_without_logits() {
    let seen = RefCell::new(Vec::new());
    let mut g = GreedyLoop::new(
        |t: u32| {
            seen.borrow_mut().push(t);
            Ok(Vec::new())
        },
        None,
        0,
    );
    g.prefill(&[7, 8]).expect("prefill");
    assert_eq!(*seen.borrow(), vec![7, 8]);
    assert!(g.logits().is_empty());
    assert_eq!(g.next_token().expect("step"), None);
}

#[test]
fn an_empty_prompt_is_refused_in_words() {
    let mut g = GreedyLoop::new(|_: u32| Ok(bits(&[1.0])), None, 4);
    assert_eq!(
        g.prefill(&[]).err().unwrap().message(),
        "corrupt file: greedy: prompt vacío — no hay logits para arrancar el decode"
    );
}

#[test]
fn floats_compare_by_their_bits() {
    let f = |x: f32| F32::from_bits(x.to_bits());
    let values = [-f32::INFINITY, -2.5, -1e-40, -0.0, 0.0, 1e-40, 1.0, 3.5, f32::INFINITY];
    for a in values {
        for b in values {
            assert_eq!(f(a).is_above(f(b)), a > b, "{a} > {b}");
        }
        assert!(!f(a).is_above(f(f32::NAN)) && !f(f32::NAN).is_above(f(a)));
        assert_eq!(f(a).is_positive(), a > 0.0);
    }
    assert!(f(f32::NAN).is_nan() && !f(f32::INFINITY).is_nan());
}

#[test]
fn the_best_five_come_first_and_in_order() {
    let v = bits(&[0.5, -1.0, 2.0, 2.0, 0.0, -0.0, 7.0]);
    let (best, top) = top5(&v);
    assert_eq!(best, 6);
    let places: Vec<usize> = top.iter().map(|p| p.0).collect();
    assert_eq!(places, vec![6, 2, 3, 0, 4]);
    assert_eq!(top[1].1, v[2]);
    assert_eq!(best, argmax(&v));
    assert_eq!(top5(&bits(&[1.0])).1.len(), 1);
}

#[test]
fn decode_errors_say_why() {
    assert_eq!(DecodeError::Eos.message(), "eos token hit");
    assert_eq!(
        DecodeError::ExpertDrop(2).message(),
        "expert load failed: 2 experts dropped; output would be corrupt"
    );
    assert_eq!(
        DecodeError::from(TokenError::NoVocab).message(),
        "tokenizer has no vocab"
    );
    assert_eq!(
        DecodeError::from(LoadError::UnknownGgmlType(3)).message(),
        "unknown ggml type id 3"
    );
}
