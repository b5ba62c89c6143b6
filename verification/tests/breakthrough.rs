use breakthrough::State;

fn perft(state: State, depth: u32) -> u64 {
    if depth == 0 {
        1
    } else {
        state.children().into_iter().map(|s| perft(s, depth - 1)).sum()
    }
}

#[test]
fn perft_1() {
    assert_eq!(perft(State::new(4, 16).unwrap(), 1), 10);
}

#[test]
fn perft_2() {
    assert_eq!(perft(State::new(4, 16).unwrap(), 2), 100);
}

#[test]
fn perft_3() {
    assert_eq!(perft(State::new(4, 16).unwrap(), 3), 1100);
}

#[test]
fn perft_4() {
    assert_eq!(perft(State::new(4, 16).unwrap(), 4), 12100);
}

#[test]
fn rejects_short_boards() {
    assert!(State::new(14, 3).is_none());
    assert!(State::new(4, 3).is_none());
    assert!(State::new(1, 0).is_none());
}

#[test]
fn rejects_oversized_boards() {
    assert!(State::new(50, 50).is_none());
    assert!(State::new(16, 5).is_none());
    assert!(State::new(13, 5).is_none());
}

#[test]
fn rejects_zero_width() {
    assert!(State::new(0, 8).is_none());
}

#[test]
fn accepts_boundary_geometries() {
    assert!(State::new(16, 4).is_some());
    assert!(State::new(1, 4).is_some());
    assert!(State::new(1, 64).is_some());
    assert!(State::new(6, 8).is_some());
}

#[test]
fn starting_layout() {
    let st = State::new(4, 16).unwrap();
    assert_eq!(st.width, 4);
    assert_eq!(st.height, 16);
    assert_eq!(st.me, 0xFF);
    assert_eq!(st.them, 0xFF00_0000_0000_0000);
    let small = State::new(2, 4).unwrap();
    assert_eq!(small.me, 0x0F);
    assert_eq!(small.them, 0xF0);
}

#[test]
fn start_is_not_lost() {
    assert!(!State::new(4, 16).unwrap().is_lost());
    assert!(!State::new(2, 4).unwrap().is_lost());
}

#[test]
fn lost_reads_the_back_rank_only() {
    let on_back_rank = State { width: 4, height: 4, me: 0, them: 1 };
    assert!(on_back_rank.is_lost());
    let edge_of_back_rank = State { width: 4, height: 4, me: 0, them: 1 << 3 };
    assert!(edge_of_back_rank.is_lost());
    let one_row_up = State { width: 4, height: 4, me: 0, them: 1 << 4 };
    assert!(!one_row_up.is_lost());
}

#[test]
fn no_pieces_no_children() {
    let empty = State { width: 4, height: 4, me: 0, them: 0 };
    assert!(empty.children().is_empty());
}

#[test]
fn top_row_pieces_have_no_moves() {
    // All of the mover's pieces already stand on the topmost row.
    let stuck = State { width: 3, height: 4, me: 0xE00, them: 0 };
    assert!(stuck.children().is_empty());
}

#[test]
fn no_wrap_from_rightmost_column() {
    // One piece on row 1, column 2 of a 3-wide board: straight ahead and
    // diagonally left are legal, but the diagonal right may not wrap to the
    // leftmost column of the row after next.
    let st = State { width: 3, height: 4, me: 1 << 5, them: 0 };
    let cs = st.children();
    assert_eq!(cs.len(), 2);
    // Children are expressed in the rotated frame of a 12-cell board.
    assert!(cs.contains(&State { width: 3, height: 4, me: 0, them: 1 << 3 }));
    assert!(cs.contains(&State { width: 3, height: 4, me: 0, them: 1 << 4 }));
    assert!(!cs.contains(&State { width: 3, height: 4, me: 0, them: 1 << 2 }));
}

#[test]
fn no_wrap_from_leftmost_column() {
    // One piece on row 1, column 0: the diagonal left may not wrap.
    let st = State { width: 3, height: 4, me: 1 << 3, them: 0 };
    let cs = st.children();
    assert_eq!(cs.len(), 2);
    assert!(cs.contains(&State { width: 3, height: 4, me: 0, them: 1 << 5 }));
    assert!(cs.contains(&State { width: 3, height: 4, me: 0, them: 1 << 4 }));
}

#[test]
fn full_board_only_captures() {
    // On the full 2x4 board no straight move is open; only the two diagonal
    // captures on the middle rows remain.
    let st = State::new(2, 4).unwrap();
    let cs = st.children();
    assert_eq!(cs.len(), 2);
    assert!(cs.contains(&State { width: 2, height: 4, me: 0x07, them: 0xE8 }));
    assert!(cs.contains(&State { width: 2, height: 4, me: 0x0B, them: 0xD4 }));
}

#[test]
fn capture_removes_the_taken_piece() {
    // Mover on row 1 column 0, defender on row 2 column 1: the diagonal
    // capture must clear the defender's bit.
    let st = State { width: 2, height: 4, me: 1 << 2, them: 1 << 5 };
    let cs = st.children();
    assert_eq!(cs.len(), 2);
    // Straight forward to cell 4; the defender at cell 5 stays.
    assert!(cs.contains(&State { width: 2, height: 4, me: 1 << 2, them: 1 << 3 }));
    // Diagonal capture onto cell 5; the defender disappears.
    assert!(cs.contains(&State { width: 2, height: 4, me: 0, them: 1 << 2 }));
}

#[test]
fn reaching_the_far_row_is_a_win() {
    // A lone piece one step short of the far row: every move reaches the
    // new mover's back rank, so every child is already lost for that mover.
    let st = State { width: 2, height: 4, me: 1 << 4, them: 0 };
    let cs = st.children();
    assert_eq!(cs.len(), 2);
    for c in &cs {
        assert!(c.is_lost());
    }
}

#[test]
fn two_plies_keep_frames_straight() {
    // Applying children twice from a tall start can reach nobody's back
    // rank, so no grandchild may report a loss out of a stale frame.
    let st = State::new(4, 16).unwrap();
    for c in st.children() {
        assert!(!c.is_lost());
        for g in c.children() {
            assert!(!g.is_lost());
        }
    }
}

#[test]
fn regeneration_is_idempotent() {
    let st = State::new(6, 8).unwrap();
    let cs1 = st.children();
    let cs2 = st.children();
    assert_eq!(cs1.len(), cs2.len());
    for c in &cs1 {
        let n1 = cs1.iter().filter(|x| *x == c).count();
        let n2 = cs2.iter().filter(|x| *x == c).count();
        assert_eq!(n1, n2);
    }
}

fn check_invariants(st: State, depth: u32) {
    assert_eq!(st.me & st.them, 0);
    let area = st.width * st.height;
    if area < 64 {
        assert_eq!(st.me >> area, 0);
        assert_eq!(st.them >> area, 0);
    }
    if depth > 0 {
        for c in st.children() {
            check_invariants(c, depth - 1);
        }
    }
}

#[test]
fn children_stay_disjoint_and_on_board() {
    // Every position reachable within a few plies of a small start keeps the
    // two bit sets disjoint and inside the board's cells.
    check_invariants(State::new(3, 5).unwrap(), 3);
    check_invariants(State::new(2, 4).unwrap(), 4);
}

#[test]
fn start_has_no_immediate_win() {
    let start = State::new(6, 8).unwrap();
    assert!(!start.children().into_iter().any(State::is_lost));
}
