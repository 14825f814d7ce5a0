use rhai_db::seeds::{
    apply_seed_round, seed_round_recomputations, workspace_inference_round_limit, FileSeeds, SymbolSeed,
};
use rhai_db::ty::{clone_type, type_eq, TypeRef};
use rhai_db::workspace::FileId;

fn ids(values: &[u32]) -> Vec<FileId> {
    values.iter().map(|v| FileId(*v)).collect()
}

fn seeds(file: u32, entries: &[(u32, TypeRef)]) -> FileSeeds {
    FileSeeds {
        file_id: FileId(file),
        seeds: entries.iter().map(|(symbol, ty)| SymbolSeed { symbol: *symbol, ty: clone_type(ty) }).collect(),
    }
}

fn files_of(round: &[FileSeeds]) -> Vec<u32> {
    round.iter().map(|entry| entry.file_id.0).collect()
}

#[test]
fn forced_round_recomputes_every_analysed_file_once() {
    let analysis = ids(&[3, 1, 2]);
    let next = vec![seeds(2, &[(5, TypeRef::Int)])];
    let round = seed_round_recomputations(&analysis, &Vec::new(), &next, true);
    assert_eq!(files_of(&round), vec![1, 2, 3]);
    assert!(round[0].seeds.is_empty());
    assert_eq!(round[1].seeds.len(), 1);
    assert_eq!(round[1].seeds[0].symbol, 5);
    assert!(type_eq(&round[1].seeds[0].ty, &TypeRef::Int));
    assert!(round[2].seeds.is_empty());
}

#[test]
fn applying_a_round_then_repeating_it_recomputes_nothing() {
    let analysis = ids(&[1, 2]);
    let mut applied = Vec::new();
    let next = vec![seeds(2, &[(5, TypeRef::Int), (6, TypeRef::String)])];
    let round = seed_round_recomputations(&analysis, &applied, &next, false);
    assert_eq!(files_of(&round), vec![2]);
    apply_seed_round(&mut applied, &round);
    assert_eq!(files_of(&applied), vec![2]);
    let again = seed_round_recomputations(&analysis, &applied, &next, false);
    assert!(again.is_empty());
}

#[test]
fn seeds_in_another_order_are_the_same_seeds() {
    let analysis = ids(&[2]);
    let applied = vec![seeds(2, &[(6, TypeRef::String), (5, TypeRef::Int)])];
    let next = vec![seeds(2, &[(5, TypeRef::Int), (6, TypeRef::String)])];
    assert!(seed_round_recomputations(&analysis, &applied, &next, false).is_empty());
}

#[test]
fn changed_or_withdrawn_seeds_are_recomputed_and_applied() {
    let analysis = ids(&[1, 2]);
    let mut applied = vec![seeds(1, &[(3, TypeRef::Int)]), seeds(2, &[(5, TypeRef::Int)]), seeds(4, &[(1, TypeRef::Bool)])];
    let next = vec![seeds(2, &[(5, TypeRef::String)])];
    let round = seed_round_recomputations(&analysis, &applied, &next, false);
    assert_eq!(files_of(&round), vec![1, 2]);
    assert!(round[0].seeds.is_empty());
    assert!(type_eq(&round[1].seeds[0].ty, &TypeRef::String));
    apply_seed_round(&mut applied, &round);
    let mut left = files_of(&applied);
    left.sort();
    assert_eq!(left, vec![2, 4]);
    let file_two = applied.iter().find(|entry| entry.file_id.0 == 2).unwrap();
    assert!(type_eq(&file_two.seeds[0].ty, &TypeRef::String));
}

#[test]
fn forced_round_keeps_applied_seeds_of_analysed_files() {
    let analysis = ids(&[1]);
    let applied = vec![seeds(1, &[(3, TypeRef::Int)])];
    assert!(seed_round_recomputations(&analysis, &applied, &Vec::new(), true).is_empty());
    let unforced = seed_round_recomputations(&analysis, &applied, &Vec::new(), false);
    assert_eq!(files_of(&unforced), vec![1]);
    assert!(unforced[0].seeds.is_empty());
}

#[test]
fn round_limit_counts_files_and_linked_imports() {
    assert_eq!(workspace_inference_round_limit(3, &[1, 0, 2]), 7);
    assert_eq!(workspace_inference_round_limit(0, &[]), 1);
}
