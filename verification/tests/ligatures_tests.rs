use amata::ligatures::{apply_liga_substitutions, ligature_feature_indices, Ligature, LigatureSet, LigatureTable};

fn lig(components: &[u16], glyph: u16) -> Ligature {
    Ligature { components: components.to_vec(), glyph }
}

fn table(sets: Vec<(u16, Vec<Ligature>)>) -> LigatureTable {
    LigatureTable { sets: sets.into_iter().map(|(first, ligatures)| LigatureSet { first, ligatures }).collect() }
}

#[test]
fn longest_match_wins() {
    // f + i -> 100, f + f + i -> 101.
    let tables = vec![table(vec![(5, vec![lig(&[7], 100), lig(&[5, 7], 101)])])];
    let mut glyphs = vec![5, 5, 7, 9];
    apply_liga_substitutions(&tables, &mut glyphs);
    assert_eq!(glyphs, vec![101, 9]);
}

#[test]
fn scanning_continues_after_a_ligature() {
    let tables = vec![table(vec![(5, vec![lig(&[7], 100)])])];
    let mut glyphs = vec![5, 7, 5, 7, 5];
    apply_liga_substitutions(&tables, &mut glyphs);
    assert_eq!(glyphs, vec![100, 100, 5]);
}

#[test]
fn glyph_zero_never_matches() {
    let tables = vec![table(vec![(0, vec![lig(&[1], 50)])])];
    let mut glyphs = vec![0, 1];
    apply_liga_substitutions(&tables, &mut glyphs);
    assert_eq!(glyphs, vec![0, 1]);
}

#[test]
fn first_of_equally_long_and_four_glyphs_stop() {
    let tables = vec![
        table(vec![(1, vec![lig(&[2], 10), lig(&[2, 3, 4], 40)])]),
        table(vec![(1, vec![lig(&[2, 3, 4], 41), lig(&[3], 11)])]),
    ];
    let mut glyphs = vec![1, 2, 3, 4];
    apply_liga_substitutions(&tables, &mut glyphs);
    assert_eq!(glyphs, vec![40]);
    let tables = vec![table(vec![(1, vec![lig(&[2], 10)])]), table(vec![(1, vec![lig(&[2], 12)])])];
    let mut glyphs = vec![1, 2];
    apply_liga_substitutions(&tables, &mut glyphs);
    assert_eq!(glyphs, vec![10]);
}

#[test]
fn no_tables_change_nothing() {
    let mut glyphs = vec![3, 4, 5];
    apply_liga_substitutions(&Vec::new(), &mut glyphs);
    assert_eq!(glyphs, vec![3, 4, 5]);
}

#[test]
fn feature_choice_prefers_latin_and_keeps_only_liga_and_dlig() {
    // latn lists features 3 (liga), 5 (kern) and 7; DFLT is ignored.
    let langs = vec![Some(vec![3, 5, 7]), Some(vec![9])];
    assert_eq!(ligature_feature_indices(&langs, Some(3), Some(8)), vec![3, 8]);
    // An empty latn language falls back to DFLT, whose dlig comes first.
    let langs = vec![Some(vec![]), Some(vec![8, 3])];
    assert_eq!(ligature_feature_indices(&langs, Some(3), Some(8)), vec![8, 3]);
    // No scripts: liga and dlig wherever they are.
    let langs: Vec<Option<Vec<u16>>> = vec![None, None];
    assert_eq!(ligature_feature_indices(&langs, Some(4), None), vec![4]);
    assert_eq!(ligature_feature_indices(&langs, None, None), Vec::<u16>::new());
}
