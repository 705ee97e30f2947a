use clip_cli::plan::split_pieces;

#[test]
fn pieces_between_cut_points() {
    assert_eq!(split_pieces(0.0, &[10.0, 20.0], 30.0), vec![(0.0, 10.0), (10.0, 20.0), (20.0, 30.0)]);
    assert_eq!(split_pieces(0, &[], 5), vec![(0, 5)]);
}

#[test]
fn pieces_chain_from_first_to_last() {
    let points = [3, 7, 7, 12];
    let pieces = split_pieces(0, &points, 20);
    assert_eq!(pieces.len(), points.len() + 1);
    assert_eq!(pieces[0].0, 0);
    assert_eq!(pieces[pieces.len() - 1].1, 20);
    for i in 0..points.len() {
        assert_eq!(pieces[i].1, pieces[i + 1].0);
        assert_eq!(pieces[i].1, points[i]);
    }
}
