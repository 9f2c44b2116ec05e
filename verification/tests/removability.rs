use cpkit::removability_checker::RemovabilityChecker;

#[test]
fn test_removability_checker() {
    // cells of the 3x3 window are numbered row by row:
    // 012
    // 345
    // 678
    // and a pattern's bit k says that cell k is filled; the table entry says
    // whether the pattern stays one connected component once the centre
    // (cell 4) is dropped
    let rc = RemovabilityChecker::new(3);
    // cell 0 alone
    assert!(rc.removability[1]);
    // only the centre: dropping it leaves nothing connected
    assert!(!rc.removability[16]);
    // cells 0,1,4: without the centre, 0 and 1 stay connected
    assert!(rc.removability[1 + 2 + 16]);
    // cells 1,4,7: the centre is the bridge
    assert!(!rc.removability[2 + 16 + 128]);
    // cells 0..5 filled
    assert!(rc.removability[1 + 2 + 4 + 8 + 16 + 32]);
    // cells 0,1,2,3,5
    assert!(rc.removability[1 + 2 + 4 + 8 + 32]);
}

#[test]
fn bfs_detects_disconnected_patterns() {
    // cells 0 and 8: opposite corners, not connected
    assert!(!RemovabilityChecker::bfs(3, 1 | 256));
    // an L of cells 0,3,4,5: connected
    assert!(RemovabilityChecker::bfs(3, 1 | 8 | 16 | 32));
    // the empty pattern is not a component
    assert!(!RemovabilityChecker::bfs(3, 0));
    // a full 2x2 window
    assert!(RemovabilityChecker::bfs(2, 0b1111));
    // 2x2 diagonal is not 4-connected
    assert!(!RemovabilityChecker::bfs(2, 0b1001));
}
