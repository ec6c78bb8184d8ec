use llm_rs::model::KVCache;
use llm_rs::speculative::{commit_round, draft_step, DraftStep};
use llm_rs::tensor::Tensor;

#[test]
fn first_position_is_sampled_first() {
    assert_eq!(draft_step(&vec![5, 6, 7], &vec![]), DraftStep::Sample(0));
}

#[test]
fn agreeing_positions_ask_for_the_next() {
    assert_eq!(draft_step(&vec![5, 6, 7], &vec![5, 6]), DraftStep::Sample(2));
    assert_eq!(draft_step(&vec![5, 6, 7], &vec![5, 6, 7]), DraftStep::Sample(3));
}

#[test]
fn disagreement_commits_the_correction() {
    assert_eq!(draft_step(&vec![5, 6, 7], &vec![5, 9]), DraftStep::Commit(vec![5, 9], 1));
    assert_eq!(draft_step(&vec![5, 6, 7], &vec![4]), DraftStep::Commit(vec![4], 0));
}

#[test]
fn full_acceptance_commits_the_bonus_token() {
    assert_eq!(draft_step(&vec![5, 6, 7], &vec![5, 6, 7, 8]), DraftStep::Commit(vec![5, 6, 7, 8], 3));
}

#[test]
fn empty_draft_commits_the_main_token() {
    assert_eq!(draft_step(&vec![], &vec![]), DraftStep::Sample(0));
    assert_eq!(draft_step(&vec![], &vec![3]), DraftStep::Commit(vec![3], 0));
}

#[test]
fn committed_tokens_are_the_main_model_tokens() {
    let draft = vec![1, 2, 3, 4];
    let targets = vec![1, 2, 8];
    match draft_step(&draft, &targets) {
        DraftStep::Commit(tokens, accepted) => {
            assert_eq!(tokens, targets[..accepted + 1].to_vec());
        }
        DraftStep::Sample(_) => panic!("expected a commit"),
    }
}

#[test]
fn a_round_commits_and_cuts_both_caches() {
    let head = |n: i32| Tensor::new((0..2 * n).collect::<Vec<i32>>(), vec![n as usize, 2]);
    let mut draft = Some(KVCache { k: vec![vec![head(6)]], v: vec![vec![head(6)]] });
    let mut main = Some(KVCache { k: vec![vec![head(7)]], v: vec![vec![head(7)]] });
    let mut tokens = vec![10, 11, 12];
    let cached = commit_round(&mut tokens, &vec![5, 9], &mut draft, &mut main);
    assert_eq!(tokens, vec![10, 11, 12, 5, 9]);
    assert_eq!(cached, 4);
    for c in [draft.unwrap(), main.unwrap()] {
        assert_eq!(c.k[0][0].shape, vec![4, 2]);
        assert_eq!(c.k[0][0].data, (0..8).collect::<Vec<i32>>());
        assert_eq!(c.v[0][0].shape, vec![4, 2]);
    }
    let mut none: Option<KVCache<i32>> = None;
    let mut none2: Option<KVCache<i32>> = None;
    assert_eq!(commit_round(&mut vec![1], &vec![2], &mut none, &mut none2), 1);
    assert!(none.is_none());
}
