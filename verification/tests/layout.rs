use cove::blocks::{Block, BlockId, Root, TreeBlocks};
use cove::layout::{scrolloff, Correction, Cursor, InnerTreeViewState};
use cove::store::{MsgNode, MsgStore};
use cove::config::{Config, Euph, EuphRoom};
use cove::input::{BindingRow, KeyBindingsList};

fn leaf(id: u64, height: u16) -> MsgNode {
    MsgNode { id, height, children: Vec::new() }
}

fn state(store: MsgStore, cursor: Cursor, last_cursor: Cursor, last_cursor_line: i64) -> InnerTreeViewState {
    InnerTreeViewState {
        store,
        cursor,
        last_cursor,
        last_cursor_line,
        last_visible_msgs: Vec::new(),
        correction: None,
        scroll: 0,
        folded: Vec::new(),
        editor_height: 1,
        editor_row: 0,
    }
}

fn find_top(blocks: &TreeBlocks, id: BlockId) -> i64 {
    blocks.find(id).expect("block not found").top_line
}

#[test]
fn scrolloff_policy() {
    assert_eq!(scrolloff(5), 0);
    assert_eq!(scrolloff(10), 0);
    assert_eq!(scrolloff(12), 1);
    assert_eq!(scrolloff(14), 2);
    assert_eq!(scrolloff(100), 2);
}

#[test]
fn tree_blocks_positions() {
    let mut blocks = TreeBlocks::new(Root::Tree(1), Root::Tree(1));
    blocks.push_back(Block { id: BlockId::Msg(1), height: 2, focus_start: 0, focus_end: 2 });
    blocks.push_back(Block { id: BlockId::Msg(2), height: 3, focus_start: 0, focus_end: 3 });
    assert_eq!(blocks.top_line(), 0);
    assert_eq!(blocks.bottom_line(), 4);
    assert_eq!(find_top(&blocks, BlockId::Msg(2)), 2);
    blocks.offset(5);
    assert_eq!(find_top(&blocks, BlockId::Msg(1)), 5);
    blocks.set_top_line(0);
    assert_eq!(find_top(&blocks, BlockId::Msg(1)), 0);
    blocks.set_bottom_line(9);
    assert_eq!(find_top(&blocks, BlockId::Msg(2)), 7);
    blocks.recalculate_offsets(BlockId::Msg(2), 4);
    assert_eq!(find_top(&blocks, BlockId::Msg(1)), 2);
    assert_eq!(find_top(&blocks, BlockId::Msg(2)), 4);
    assert!(blocks.find(BlockId::Cursor).is_none());

    let mut above = TreeBlocks::new(Root::Tree(0), Root::Tree(0));
    above.push_back(Block { id: BlockId::Msg(0), height: 4, focus_start: 0, focus_end: 4 });
    blocks.prepend(above);
    assert_eq!(find_top(&blocks, BlockId::Msg(0)), -2);
    assert_eq!(blocks.top_root, Root::Tree(0));
}

/// S6 (literal store): trees {m1} and {m2 -> m2a} with the cursor on the last
/// message and a center correction. The whole history is shorter than the
/// screen only below the cursor, so the centering is clamped by the end of
/// the history: the view may not scroll past the newest message.
#[test]
fn s6_layout_center_cursor() {
    let t1 = leaf(1, 5);
    let t2 = MsgNode { id: 2, height: 4, children: vec![leaf(3, 3)] };
    let store = MsgStore { trees: vec![t1, t2] };
    let mut s = state(store, Cursor::Msg(3), Cursor::Msg(3), 4);
    s.correction = Some(Correction::CenterCursor);
    let blocks = s.relayout(10);
    // The viewport is fully covered.
    assert!(blocks.top_line <= 0);
    assert!(blocks.top_line + blocks.total - 1 >= 9);
    // The cursor block is present; centering to (10 - 3) / 2 = 3 would leave
    // lines 6..9 past the end of the history, so the correction is clamped
    // and the newest message ends at the last line.
    assert_eq!(find_top(&blocks, BlockId::Msg(3)), 7);
    assert_eq!(s.last_visible_msgs, vec![1, 2, 3]);
    assert_eq!(s.last_cursor, Cursor::Msg(3));
    assert_eq!(s.last_cursor_line, 7);
    assert_eq!(s.scroll, 0);
    assert!(s.correction.is_none());
}

/// Centering lands exactly at (height - block height) / 2 when history
/// continues on both sides of the cursor.
#[test]
fn center_cursor_exact_when_content_surrounds() {
    let t1 = leaf(1, 5);
    let t2 = MsgNode { id: 2, height: 4, children: vec![leaf(3, 3)] };
    let t3 = leaf(4, 8);
    let store = MsgStore { trees: vec![t1, t2, t3] };
    let mut s = state(store, Cursor::Msg(2), Cursor::Msg(2), 0);
    s.correction = Some(Correction::CenterCursor);
    let blocks = s.relayout(10);
    assert_eq!(find_top(&blocks, BlockId::Msg(2)), 3);
    assert!(blocks.top_line <= 0);
    assert!(blocks.top_line + blocks.total - 1 >= 9);
}

/// S7: the cursor's message lies above the viewport after a resize; with the
/// move-to-visible correction the cursor jumps to the first visible message
/// and a full redraw re-anchors at it.
#[test]
fn s7_move_cursor_to_visible_area() {
    let t1 = leaf(1, 2);
    let t2 = MsgNode { id: 2, height: 6, children: vec![leaf(3, 6)] };
    let store = MsgStore { trees: vec![t1, t2] };
    // m1 starts two lines above the first visible line, so it is off screen.
    let mut s = state(store, Cursor::Msg(1), Cursor::Msg(1), -2);
    s.correction = Some(Correction::MoveCursorToVisibleArea);
    let blocks = s.relayout(10);
    assert_eq!(s.cursor, Cursor::Msg(2));
    assert_eq!(s.last_cursor, Cursor::Msg(2));
    // The committed anchor is the new cursor block's line in the final
    // blocks.
    assert_eq!(s.last_cursor_line, find_top(&blocks, BlockId::Msg(2)));
    assert!(blocks.find(BlockId::Msg(2)).is_some());
}

/// The make-visible correction shifts the screen until the cursor's focus
/// rows lie inside the scrolloff band.
#[test]
fn make_cursor_visible_shifts_into_band() {
    let t1 = leaf(1, 20);
    let t2 = MsgNode { id: 2, height: 1, children: vec![leaf(3, 1)] };
    let t3 = leaf(4, 20);
    let store = MsgStore { trees: vec![t1, t2, t3] };
    // The cursor's message starts well below the viewport.
    let mut s = state(store, Cursor::Msg(3), Cursor::Msg(1), 0);
    s.correction = Some(Correction::MakeCursorVisible);
    let blocks = s.relayout(14);
    let top = find_top(&blocks, BlockId::Msg(3));
    // scrolloff(14) == 2, the block is one line tall: rows 2..=11 are fine.
    assert!(top >= 2 && top <= 11, "cursor line {top} outside the band");
}

/// A bottom-locked cursor with the move-to-visible correction walks upward
/// and picks the last message inside the band.
#[test]
fn move_from_bottom_picks_last_visible() {
    let store = MsgStore { trees: vec![leaf(1, 3), leaf(2, 3), leaf(3, 3)] };
    let mut s = state(store, Cursor::Bottom, Cursor::Bottom, 0);
    s.correction = Some(Correction::MoveCursorToVisibleArea);
    let blocks = s.relayout(12);
    // scrolloff(12) == 1: the band is rows 1..=10; the newest message ends at
    // row 10 (the bottom band holds row 11), so it is the last one inside.
    assert_eq!(s.cursor, Cursor::Msg(3));
    assert_eq!(s.last_cursor_line, find_top(&blocks, BlockId::Msg(3)));
}

/// P8: the cursor's block is present even when the cursor jumped far from
/// the previous position and a re-seed is needed.
#[test]
fn cursor_block_present_after_far_jump() {
    let t1 = leaf(1, 3);
    let mut trees = vec![t1];
    for i in 0..40u64 {
        trees.push(leaf(100 + i, 5));
    }
    let store = MsgStore { trees };
    let mut s = state(store, Cursor::Msg(1), Cursor::Bottom, 0);
    let blocks = s.relayout(10);
    assert!(blocks.find(BlockId::Msg(1)).is_some());
    assert!(blocks.top_line + blocks.total - 1 >= 9);
}

/// P12: a folded message hides its whole subtree; the fold set is cleared
/// along the cursor's own path so the cursor stays rendered.
#[test]
fn folding_hides_descendants() {
    let t2 = MsgNode {
        id: 2,
        height: 1,
        children: vec![MsgNode { id: 3, height: 1, children: vec![leaf(4, 1)] }],
    };
    let store = MsgStore { trees: vec![leaf(1, 1), t2] };
    let mut s = state(store, Cursor::Msg(1), Cursor::Msg(1), 0);
    s.folded = vec![2];
    let blocks = s.relayout(10);
    assert!(blocks.find(BlockId::Msg(2)).is_some());
    assert!(blocks.find(BlockId::Msg(3)).is_none());
    assert!(blocks.find(BlockId::Msg(4)).is_none());
    assert_eq!(s.last_visible_msgs, vec![1, 2]);
}

/// The cursor's ancestors are unfolded before layout so the cursor is
/// rendered even if its parent was collapsed.
#[test]
fn cursor_path_is_made_visible() {
    let t2 = MsgNode {
        id: 2,
        height: 1,
        children: vec![MsgNode { id: 3, height: 1, children: vec![leaf(4, 1)] }],
    };
    let store = MsgStore { trees: vec![t2] };
    let mut s = state(store, Cursor::Msg(4), Cursor::Msg(4), 0);
    s.folded = vec![2, 3];
    let blocks = s.relayout(10);
    assert!(blocks.find(BlockId::Msg(4)).is_some());
    assert!(!s.folded.contains(&2));
    assert!(!s.folded.contains(&3));
}

/// P11: the committed visible set is exactly the message blocks that touch
/// the viewport.
#[test]
fn visible_msgs_match_viewport() {
    let mut trees = Vec::new();
    for i in 0..6u64 {
        trees.push(leaf(i + 1, 4));
    }
    let store = MsgStore { trees };
    let mut s = state(store, Cursor::Bottom, Cursor::Bottom, 0);
    let blocks = s.relayout(10);
    // The bottom band is pinned to the last line; 10 lines show the last
    // three 4-line messages (the oldest of them only partly).
    assert!(blocks.top_line + blocks.total - 1 >= 9);
    assert_eq!(s.last_visible_msgs, vec![4, 5, 6]);
    for id in &s.last_visible_msgs {
        let top = find_top(&blocks, BlockId::Msg(*id));
        assert!(top <= 9 && top + 4 > 0);
    }
}

/// The editor under a parent is rendered as the cursor block right after the
/// parent's subtree.
#[test]
fn editor_block_follows_its_parent() {
    let t2 = MsgNode { id: 2, height: 2, children: vec![leaf(3, 1)] };
    let store = MsgStore { trees: vec![leaf(1, 1), t2] };
    let mut s = state(store, Cursor::Editor { parent: Some(2) }, Cursor::Bottom, 0);
    s.editor_height = 2;
    s.editor_row = 1;
    let blocks = s.relayout(10);
    let cursor_top = find_top(&blocks, BlockId::Cursor);
    let m3_top = find_top(&blocks, BlockId::Msg(3));
    assert_eq!(cursor_top, m3_top + 1);
}

/// A bottom-locked cursor keeps the newest content pinned to the last line.
#[test]
fn bottom_cursor_pins_to_last_line() {
    let store = MsgStore { trees: vec![leaf(1, 2), leaf(2, 3)] };
    let mut s = state(store, Cursor::Bottom, Cursor::Bottom, 0);
    let blocks = s.relayout(8);
    assert_eq!(find_top(&blocks, BlockId::Cursor), 8);
    assert_eq!(find_top(&blocks, BlockId::Msg(2)), 5);
    assert_eq!(find_top(&blocks, BlockId::Msg(1)), 3);
}

/// Pending scroll moves the window over the history, is consumed by the
/// pass, and cannot scroll past the end of the history.
#[test]
fn scroll_is_applied_and_cleared() {
    let mut trees = Vec::new();
    for i in 0..5u64 {
        trees.push(leaf(i + 1, 4));
    }
    let store = MsgStore { trees };
    let mut s = state(store, Cursor::Msg(5), Cursor::Msg(5), 6);
    let before = s.relayout(10);
    assert_eq!(find_top(&before, BlockId::Msg(5)), 6);
    // Scrolling up reveals older history above.
    s.scroll = 3;
    let up = s.relayout(10);
    assert_eq!(find_top(&up, BlockId::Msg(5)), 9);
    assert_eq!(s.scroll, 0);
    // Scrolling down past the newest message is clamped back.
    s.last_cursor_line = 6;
    s.scroll = -4;
    let down = s.relayout(10);
    assert_eq!(find_top(&down, BlockId::Msg(5)), 6);
    assert_eq!(s.scroll, 0);
}

#[test]
fn store_navigation() {
    let store = MsgStore { trees: vec![leaf(1, 1), leaf(2, 1), leaf(3, 1)] };
    assert_eq!(store.last_tree_id(), Some(3));
    assert_eq!(store.prev_tree_id(2), Some(1));
    assert_eq!(store.prev_tree_id(1), None);
    assert_eq!(store.next_tree_id(2), Some(3));
    assert_eq!(store.next_tree_id(3), None);
    assert_eq!(store.tree(2).id, 2);
    assert!(store.contains(2));
    assert!(!store.contains(9));
    let nested = MsgStore {
        trees: vec![MsgNode { id: 5, height: 1, children: vec![leaf(6, 1)] }],
    };
    assert_eq!(nested.path(6), vec![5, 6]);
    assert_eq!(nested.path(5), vec![5]);
}

#[test]
fn config_room_lookup() {
    let cfg = Config {
        data_dir: None,
        ephemeral: false,
        euph: Euph {
            rooms: vec![
                (
                    "music".to_owned(),
                    EuphRoom {
                        username: Some("me".to_owned()),
                        force_username: true,
                        password: None,
                    },
                ),
            ],
        },
    };
    let found = cfg.euph_room("music");
    assert_eq!(found.username.as_deref(), Some("me"));
    assert!(found.force_username);
    let missing = cfg.euph_room("other");
    assert_eq!(missing.username, None);
    assert!(!missing.force_username);
    assert_eq!(missing.password, None);
}

#[test]
fn key_bindings_list_rows() {
    let mut list = KeyBindingsList::new();
    list.heading("general");
    list.binding("j", "move down");
    list.binding_ctd("also the arrow key");
    list.empty();
    assert_eq!(list.rows.len(), 4);
    assert_eq!(list.rows[0], BindingRow::Heading { name: "general".to_owned() });
    assert_eq!(
        list.rows[1],
        BindingRow::Binding { binding: "j".to_owned(), description: "move down".to_owned() }
    );
    assert_eq!(
        list.rows[2],
        BindingRow::BindingCtd { description: "also the arrow key".to_owned() }
    );
    assert_eq!(list.rows[3], BindingRow::Empty);
}
