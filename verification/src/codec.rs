//! The table codec.
//!
//! The external job table is flat text. A block is a run of comment lines
//! followed by one non-comment line; comment lines left at the end of the
//! text form one last block of their own. A block whose marker comment
//! carries a payload in canonical form, and whose final line has at least
//! five schedule fields, decodes to a structured item; every other block
//! is preserved verbatim as an opaque item.

use vstd::prelude::*;
use vstd::string::*;

use crate::item::{views, Item, ItemV, Payload, PayloadV};
use crate::payload::{parse_args, parse_args_chars, args_to_chars, ser_args};
use crate::scan::is_ws;
use crate::strutil::{
    chars_to_string, chars_vec, extend_chars, find_idx, has_prefix, lemma_find_idx_is,
    lemma_find_idx_none, push_char, vec_has_prefix_at,
};

verus! {

/// The marker that opens the comment line of an entry this tool owns.
pub open spec fn marker() -> Seq<char> {
    "# @light-dragon: "@
}

/// The text split at newlines; a final newline closes the last line
/// rather than opening an empty one.
pub open spec fn split_lines(t: Seq<char>) -> Seq<Seq<char>>
    decreases t.len(),
{
    if t.len() == 0 {
        Seq::empty()
    } else {
        let i = find_idx(t, |c: char| c == '\n');
        if 0 <= i < t.len() {
            seq![t.take(i)] + split_lines(t.skip(i + 1))
        } else {
            seq![t]
        }
    }
}

/// A comment line of the job table.
pub open spec fn is_comment(l: Seq<char>) -> bool {
    l.len() > 0 && l[0] == '#'
}

/// Lines grouped into blocks: comment lines belong to the next
/// non-comment line; trailing comment lines form one final block.
pub open spec fn split_blocks(lines: Seq<Seq<char>>) -> Seq<Seq<Seq<char>>>
    decreases lines.len(),
{
    if lines.len() == 0 {
        Seq::empty()
    } else {
        let k = find_idx(lines, |l: Seq<char>| !is_comment(l));
        if 0 <= k < lines.len() {
            seq![lines.take(k + 1)] + split_blocks(lines.skip(k + 1))
        } else {
            seq![lines]
        }
    }
}

/// Lines joined with newlines, none at the end.
pub open spec fn join_lines(b: Seq<Seq<char>>) -> Seq<char>
    decreases b.len(),
{
    if b.len() == 0 {
        Seq::empty()
    } else if b.len() == 1 {
        b[0]
    } else {
        b[0] + seq!['\n'] + join_lines(b.drop_first())
    }
}

/// The whitespace-separated tokens of a line.
pub open spec fn ws_tokens(l: Seq<char>) -> Seq<Seq<char>>
    decreases l.len(),
{
    if l.len() == 0 {
        Seq::empty()
    } else if is_ws(l[0]) {
        ws_tokens(l.drop_first())
    } else {
        let k = find_idx(l, |c: char| is_ws(c));
        if 0 < k < l.len() {
            seq![l.take(k)] + ws_tokens(l.skip(k))
        } else {
            seq![l]
        }
    }
}

/// Tokens joined with single spaces.
pub open spec fn join_sp(ts: Seq<Seq<char>>) -> Seq<char>
    decreases ts.len(),
{
    if ts.len() == 0 {
        Seq::empty()
    } else if ts.len() == 1 {
        ts[0]
    } else {
        ts[0] + seq![' '] + join_sp(ts.drop_first())
    }
}

/// Whether a line is a marker comment.
pub open spec fn is_marker_line(l: Seq<char>) -> bool {
    has_prefix(l, marker())
}

/// What one block decodes to. A block becomes a structured item when it
/// closes with a non-comment line, its first marker comment carries a
/// payload in canonical form, and the final line has at least five
/// fields; otherwise the block is kept opaque, byte for byte.
pub open spec fn block_item(b: Seq<Seq<char>>) -> ItemV
    recommends
        b.len() > 0,
{
    let last = b[b.len() - 1];
    let mk = find_idx(b, |l: Seq<char>| is_marker_line(l));
    if !is_comment(last) && 0 <= mk < b.len() && parse_args(b[mk].skip(marker().len() as int))
        is Some && ws_tokens(last).len() >= 5 {
        let a = parse_args(b[mk].skip(marker().len() as int))->Some_0;
        ItemV {
            schedule: join_sp(ws_tokens(last).take(5)),
            cmd: join_sp(ws_tokens(last).skip(5)),
            args: PayloadV::Structured(a),
        }
    } else {
        ItemV { schedule: Seq::empty(), cmd: Seq::empty(), args: PayloadV::Opaque(join_lines(b)) }
    }
}

/// What a table text decodes to.
pub open spec fn items_of(t: Seq<char>) -> Seq<ItemV> {
    split_blocks(split_lines(t)).map_values(|b: Seq<Seq<char>>| block_item(b))
}

/// What one item encodes to, final newline included.
pub open spec fn encode_item(iv: ItemV) -> Seq<char> {
    match iv.args {
        PayloadV::Structured(a) => marker() + ser_args(a) + seq!['\n'] + iv.schedule + seq![' ']
            + iv.cmd + seq!['\n'],
        PayloadV::Opaque(raw) => raw + seq!['\n'],
    }
}

/// What a whole table encodes to.
pub open spec fn encode_items(s: Seq<ItemV>) -> Seq<char>
    decreases s.len(),
{
    if s.len() == 0 {
        Seq::empty()
    } else {
        encode_item(s[0]) + encode_items(s.drop_first())
    }
}

/// A block already in the codec's own output shape: if it decodes to a
/// structured item, it is just the marker comment and a schedule line
/// whose fields are single-space separated. The marker line's exact text
/// follows from the payload parser's strictness; nothing more need be
/// assumed of it.
pub open spec fn canonical_block(b: Seq<Seq<char>>) -> bool {
    block_item(b).args is Structured ==> {
        &&& b.len() == 2
        &&& b[1] == block_item(b).schedule + seq![' '] + block_item(b).cmd
    }
}

/// A table text the codec round-trips byte for byte: newline-terminated,
/// with every structured block in canonical form.
pub open spec fn well_formed_table(t: Seq<char>) -> bool {
    &&& t.len() > 0 ==> t.last() == '\n'
    &&& forall|i: int|
        0 <= i < split_blocks(split_lines(t)).len() ==> canonical_block(
            #[trigger] split_blocks(split_lines(t))[i],
        )
}

/// The views of a sequence of character vectors.
pub open spec fn vv_views(s: Seq<Vec<char>>) -> Seq<Seq<char>> {
    s.map_values(|x: Vec<char>| x@)
}

/// Lines rejoined with a newline after each.
pub open spec fn lines_text(ls: Seq<Seq<char>>) -> Seq<char>
    decreases ls.len(),
{
    if ls.len() == 0 {
        Seq::empty()
    } else {
        ls[0] + seq!['\n'] + lines_text(ls.drop_first())
    }
}

/// Blocks rejoined with a newline after each line.
pub open spec fn blocks_text(bs: Seq<Seq<Seq<char>>>) -> Seq<char>
    decreases bs.len(),
{
    if bs.len() == 0 {
        Seq::empty()
    } else {
        join_lines(bs[0]) + seq!['\n'] + blocks_text(bs.drop_first())
    }
}

/// Splitting after a first line.
proof fn lemma_split_lines_step(cur: Seq<char>, rest: Seq<char>)
    requires
        forall|k: int| 0 <= k < cur.len() ==> cur[k] != '\n',
    ensures
        split_lines(cur + seq!['\n'] + rest) == seq![cur] + split_lines(rest),
{
    let t = cur + seq!['\n'] + rest;
    assert(t[cur.len() as int] == '\n');
    assert(forall|k: int| 0 <= k < cur.len() ==> t[k] == cur[k]);
    lemma_find_idx_is(t, |c: char| c == '\n', cur.len() as int);
    assert(t.take(cur.len() as int) =~= cur);
    assert(t.skip(cur.len() as int + 1) =~= rest);
    assert(split_lines(t) =~= seq![cur] + split_lines(rest));
}

/// A last line without terminator stands alone; nothing follows it.
proof fn lemma_split_lines_last(cur: Seq<char>)
    requires
        forall|k: int| 0 <= k < cur.len() ==> cur[k] != '\n',
    ensures
        split_lines(cur) == if cur.len() == 0 {
            Seq::<Seq<char>>::empty()
        } else {
            seq![cur]
        },
{
    if cur.len() > 0 {
        lemma_find_idx_none(cur, |c: char| c == '\n');
    }
}

/// Rejoining the split lines of a newline-terminated text gives the text
/// back.
proof fn lemma_lines_text_of_split(t: Seq<char>)
    requires
        t.len() > 0 ==> t.last() == '\n',
    ensures
        lines_text(split_lines(t)) == t,
        forall|i: int, k: int|
            0 <= i < split_lines(t).len() && 0 <= k < split_lines(t)[i].len() ==> #[trigger] (
            split_lines(t)[i][k]) != '\n',
    decreases t.len(),
{
    if t.len() > 0 {
        let p = |c: char| c == '\n';
        crate::strutil::lemma_find_idx(t, p);
        let i = find_idx(t, p);
        assert(i != -1) by {
            if i == -1 {
                assert(!p(t[t.len() - 1]));
            }
        }
        let cur = t.take(i);
        let rest = t.skip(i + 1);
        assert(rest.len() > 0 ==> rest.last() == '\n');
        lemma_lines_text_of_split(rest);
        assert(split_lines(t) == seq![cur] + split_lines(rest));
        assert(lines_text(split_lines(t)) == cur + seq!['\n'] + lines_text(split_lines(rest)))
            by {
            assert((seq![cur] + split_lines(rest))[0] == cur);
            assert((seq![cur] + split_lines(rest)).drop_first() =~= split_lines(rest));
        }
        assert(cur + seq!['\n'] + rest =~= t);
        assert(forall|k: int| 0 <= k < cur.len() ==> cur[k] != '\n');
        assert forall|bi: int, k: int|
            0 <= bi < split_lines(t).len() && 0 <= k < split_lines(t)[bi].len() implies #[trigger] (
        split_lines(t)[bi][k]) != '\n' by {
            if bi == 0 {
                assert(split_lines(t)[0] == cur);
            } else {
                assert(split_lines(t)[bi] == split_lines(rest)[bi - 1]);
            }
        }
    }
}

/// `lines_text` distributes over concatenation.
proof fn lemma_lines_text_add(a: Seq<Seq<char>>, b: Seq<Seq<char>>)
    ensures
        lines_text(a + b) == lines_text(a) + lines_text(b),
    decreases a.len(),
{
    if a.len() == 0 {
        assert(a + b =~= b);
        assert(lines_text(a) =~= Seq::<char>::empty());
        assert(lines_text(a) + lines_text(b) =~= lines_text(b));
    } else {
        assert((a + b).drop_first() =~= a.drop_first() + b);
        lemma_lines_text_add(a.drop_first(), b);
        assert((a + b)[0] == a[0]);
        assert(lines_text(a + b) == a[0] + seq!['\n'] + (lines_text(a.drop_first()) + lines_text(
            b,
        )));
        assert(a[0] + seq!['\n'] + (lines_text(a.drop_first()) + lines_text(b)) =~= (a[0]
            + seq!['\n'] + lines_text(a.drop_first())) + lines_text(b));
    }
}

/// One block rejoined, newline after each line, is its joined text plus a
/// final newline.
proof fn lemma_lines_text_join(b: Seq<Seq<char>>)
    requires
        b.len() > 0,
    ensures
        lines_text(b) == join_lines(b) + seq!['\n'],
    decreases b.len(),
{
    if b.len() == 1 {
        assert(lines_text(b.drop_first()) =~= Seq::<char>::empty());
        assert(lines_text(b) =~= join_lines(b) + seq!['\n']);
    } else {
        lemma_lines_text_join(b.drop_first());
        assert(lines_text(b) == b[0] + seq!['\n'] + (join_lines(b.drop_first()) + seq!['\n']));
        assert(b[0] + seq!['\n'] + (join_lines(b.drop_first()) + seq!['\n']) =~= (b[0] + seq!['\n']
            + join_lines(b.drop_first())) + seq!['\n']);
    }
}

/// Every block a split produces holds at least one line.
proof fn lemma_split_blocks_nonempty(ls: Seq<Seq<char>>)
    ensures
        forall|i: int| 0 <= i < split_blocks(ls).len() ==> #[trigger] (split_blocks(ls)[i]).len()
            > 0,
    decreases ls.len(),
{
    if ls.len() > 0 {
        let p = |l: Seq<char>| !is_comment(l);
        let k = find_idx(ls, p);
        if 0 <= k < ls.len() {
            lemma_split_blocks_nonempty(ls.skip(k + 1));
            assert forall|i: int| 0 <= i < split_blocks(ls).len() implies #[trigger] (split_blocks(
                ls,
            )[i]).len() > 0 by {
                if i > 0 {
                    assert(split_blocks(ls)[i] == split_blocks(ls.skip(k + 1))[i - 1]);
                }
            }
        }
    }
}

/// Rejoining the blocks of a line split gives the lines back.
proof fn lemma_blocks_text_of_split(ls: Seq<Seq<char>>)
    ensures
        blocks_text(split_blocks(ls)) == lines_text(ls),
    decreases ls.len(),
{
    if ls.len() == 0 {
    } else {
        let p = |l: Seq<char>| !is_comment(l);
        let k = find_idx(ls, p);
        if 0 <= k < ls.len() {
            let b = ls.take(k + 1);
            let rest = ls.skip(k + 1);
            lemma_blocks_text_of_split(rest);
            assert(split_blocks(ls) == seq![b] + split_blocks(rest));
            assert(blocks_text(split_blocks(ls)) == join_lines(b) + seq!['\n'] + blocks_text(
                split_blocks(rest),
            )) by {
                assert((seq![b] + split_blocks(rest))[0] == b);
                assert((seq![b] + split_blocks(rest)).drop_first() =~= split_blocks(rest));
            }
            lemma_lines_text_join(b);
            lemma_lines_text_add(b, rest);
            assert(b + rest =~= ls);
            assert(join_lines(b) + seq!['\n'] + blocks_text(split_blocks(rest)) =~= (join_lines(b)
                + seq!['\n']) + lines_text(rest));
        } else {
            assert(blocks_text(split_blocks(ls)) == join_lines(ls) + seq!['\n'] + blocks_text(
                Seq::<Seq<Seq<char>>>::empty(),
            )) by {
                assert((seq![ls])[0] == ls);
                assert((seq![ls]).drop_first() =~= Seq::<Seq<Seq<char>>>::empty());
            }
            lemma_lines_text_join(ls);
            assert(join_lines(ls) + seq!['\n'] + Seq::<char>::empty() =~= lines_text(ls));
        }
    }
}

/// A canonical block re-encodes to its own text plus the final newline.
proof fn lemma_encode_block(b: Seq<Seq<char>>)
    requires
        b.len() > 0,
        canonical_block(b),
    ensures
        encode_item(block_item(b)) == join_lines(b) + seq!['\n'],
{
    let iv = block_item(b);
    match iv.args {
        PayloadV::Structured(a) => {
            let mk = find_idx(b, |l: Seq<char>| is_marker_line(l));
            crate::strutil::lemma_find_idx(b, |l: Seq<char>| is_marker_line(l));
            // the marker line cannot be the closing non-comment line
            assert(mk == 0) by {
                if mk == 1 {
                    assert(is_marker_line(b[1]));
                    reveal_strlit("# @light-dragon: ");
                    assert(marker().len() == 17);
                    assert(b[1].subrange(0, marker().len() as int)[0] == b[1][0]);
                    assert(b[1][0] == marker()[0]);
                    assert(marker()[0] == '#');
                    assert(is_comment(b[b.len() - 1]));
                }
            }
            // strictness: the payload text is its value's serialization
            crate::payload::lemma_parse_args_sound(b[0].skip(marker().len() as int));
            assert(b[0] =~= marker() + ser_args(a));
            let l1 = marker() + ser_args(a);
            let l2 = iv.schedule + seq![' '] + iv.cmd;
            assert(b =~= seq![l1, l2]);
            assert(b.len() == 2);
            assert(b[0] == l1);
            assert(b.drop_first() =~= seq![l2]);
            assert((seq![l2])[0] == l2);
            assert(join_lines(seq![l2]) == l2);
            assert(join_lines(b) == b[0] + seq!['\n'] + join_lines(b.drop_first()));
            assert(join_lines(b) == l1 + seq!['\n'] + l2);
            assert(encode_item(iv) =~= join_lines(b) + seq!['\n']);
        },
        PayloadV::Opaque(raw) => {
            assert(raw == join_lines(b));
        },
    }
}

/// Re-encoding every decoded block of a well-formed table reassembles the
/// table.
proof fn lemma_encode_blocks(bs: Seq<Seq<Seq<char>>>)
    requires
        forall|i: int| 0 <= i < bs.len() ==> #[trigger] (bs[i]).len() > 0,
        forall|i: int| 0 <= i < bs.len() ==> canonical_block(#[trigger] bs[i]),
    ensures
        encode_items(bs.map_values(|b: Seq<Seq<char>>| block_item(b))) == blocks_text(bs),
    decreases bs.len(),
{
    let m = bs.map_values(|b: Seq<Seq<char>>| block_item(b));
    if bs.len() == 0 {
        assert(m.len() == 0);
    } else {
        assert(forall|i: int| 0 <= i < bs.drop_first().len() ==> bs.drop_first()[i] == bs[i + 1]);
        lemma_encode_blocks(bs.drop_first());
        assert(m[0] == block_item(bs[0]));
        assert(m.drop_first() =~= bs.drop_first().map_values(|b: Seq<Seq<char>>| block_item(b)));
        lemma_encode_block(bs[0]);
        assert(encode_items(m) == encode_item(m[0]) + encode_items(m.drop_first()));
        assert(encode_items(m) =~= blocks_text(bs));
    }
}

/// Round trip of a well-formed table: re-encoding its decoded items gives
/// the very same text. Structured blocks in canonical form come back from
/// their payloads; every other block is opaque and kept verbatim.
pub proof fn lemma_encode_of_decode(t: Seq<char>)
    requires
        well_formed_table(t),
    ensures
        encode_items(items_of(t)) == t,
{
    let ls = split_lines(t);
    let bs = split_blocks(ls);
    lemma_lines_text_of_split(t);
    lemma_blocks_text_of_split(ls);
    lemma_split_blocks_nonempty(ls);
    lemma_encode_blocks(bs);
}

/// The tokens a line splits into are non-empty and free of whitespace.
proof fn lemma_ws_tokens_wf(l: Seq<char>)
    ensures
        forall|j: int| 0 <= j < ws_tokens(l).len() ==> (#[trigger] ws_tokens(l)[j]).len() > 0,
        forall|j: int, c: int|
            0 <= j < ws_tokens(l).len() && 0 <= c < ws_tokens(l)[j].len() ==> !is_ws(
                #[trigger] ws_tokens(l)[j][c],
            ),
    decreases l.len(),
{
    if l.len() == 0 {
    } else if is_ws(l[0]) {
        lemma_ws_tokens_wf(l.drop_first());
        assert(ws_tokens(l) == ws_tokens(l.drop_first()));
    } else {
        let k = find_idx(l, |c: char| is_ws(c));
        crate::strutil::lemma_find_idx(l, |c: char| is_ws(c));
        if 0 < k < l.len() {
            lemma_ws_tokens_wf(l.skip(k));
            assert(ws_tokens(l) == seq![l.take(k)] + ws_tokens(l.skip(k)));
            assert forall|j: int, c: int|
                0 <= j < ws_tokens(l).len() && 0 <= c < ws_tokens(l)[j].len() implies !is_ws(
                #[trigger] ws_tokens(l)[j][c],
            ) by {
                if j == 0 {
                    assert(ws_tokens(l)[0] == l.take(k));
                    assert(l.take(k)[c] == l[c]);
                } else {
                    assert(ws_tokens(l)[j] == ws_tokens(l.skip(k))[j - 1]);
                }
            }
            assert forall|j: int| 0 <= j < ws_tokens(l).len() implies (#[trigger] ws_tokens(
                l,
            )[j]).len() > 0 by {
                if j > 0 {
                    assert(ws_tokens(l)[j] == ws_tokens(l.skip(k))[j - 1]);
                }
            }
        } else {
            assert(ws_tokens(l) == seq![l]);
            assert(forall|c: int| 0 <= c < l.len() ==> !is_ws(#[trigger] l[c]));
        }
    }
}

/// Joining non-empty token lists concatenates them around one space.
proof fn lemma_join_sp_concat(a: Seq<Seq<char>>, b: Seq<Seq<char>>)
    requires
        a.len() > 0,
        b.len() > 0,
    ensures
        join_sp(a + b) == join_sp(a) + seq![' '] + join_sp(b),
    decreases a.len(),
{
    if a.len() == 1 {
        assert((a + b)[0] == a[0]);
        assert((a + b).drop_first() =~= b);
        assert(join_sp(a) == a[0]);
        assert(join_sp(a + b) == a[0] + seq![' '] + join_sp(b));
    } else {
        assert((a + b)[0] == a[0]);
        assert((a + b).drop_first() =~= a.drop_first() + b);
        lemma_join_sp_concat(a.drop_first(), b);
        assert(join_sp(a + b) == a[0] + seq![' '] + (join_sp(a.drop_first()) + seq![' '] + join_sp(
            b,
        )));
        assert(a[0] + seq![' '] + (join_sp(a.drop_first()) + seq![' '] + join_sp(b)) =~= (a[0]
            + seq![' '] + join_sp(a.drop_first())) + seq![' '] + join_sp(b));
    }
}

/// Splitting a joined token list, before whitespace or nothing, gives the
/// tokens back, then whatever the trailing text splits into.
proof fn lemma_ws_tokens_of_join(ts: Seq<Seq<char>>, tail: Seq<char>)
    requires
        forall|j: int| 0 <= j < ts.len() ==> (#[trigger] ts[j]).len() > 0,
        forall|j: int, c: int|
            0 <= j < ts.len() && 0 <= c < ts[j].len() ==> !is_ws(#[trigger] ts[j][c]),
        tail.len() > 0 ==> is_ws(tail[0]),
    ensures
        ws_tokens(join_sp(ts) + tail) == ts + ws_tokens(tail),
    decreases ts.len(),
{
    let l = join_sp(ts) + tail;
    if ts.len() == 0 {
        assert(l =~= tail);
        assert(ts + ws_tokens(tail) =~= ws_tokens(tail));
    } else {
        let t0 = ts[0];
        if ts.len() == 1 {
            assert(l =~= t0 + tail);
        } else {
            lemma_join_sp_concat(seq![ts[0]], ts.drop_first());
            assert(seq![ts[0]] + ts.drop_first() =~= ts);
            assert(join_sp(seq![ts[0]]) == ts[0]);
            assert(l =~= t0 + (seq![' '] + join_sp(ts.drop_first()) + tail));
        }
        let rest: Seq<char> = if ts.len() == 1 {
            tail
        } else {
            seq![' '] + join_sp(ts.drop_first()) + tail
        };
        assert(l =~= t0 + rest);
        assert(forall|c: int| 0 <= c < t0.len() ==> !is_ws(#[trigger] t0[c]));
        assert(forall|c: int| 0 <= c < t0.len() ==> l[c] == t0[c]);
        assert(!is_ws(l[0]));
        let k = t0.len() as int;
        if rest.len() == 0 {
            crate::strutil::lemma_find_idx_none(l, |c: char| is_ws(c));
            assert(ws_tokens(l) == seq![l]);
            assert(l =~= t0);
            assert(ts =~= seq![t0]);
            assert(ws_tokens(tail) =~= Seq::<Seq<char>>::empty());
            assert(seq![l] =~= ts + ws_tokens(tail));
        } else {
            assert(rest.len() > 0 ==> is_ws(rest[0]));
            assert(l[k] == rest[0]);
            crate::strutil::lemma_find_idx_is(l, |c: char| is_ws(c), k);
            assert(ws_tokens(l) == seq![l.take(k)] + ws_tokens(l.skip(k)));
            assert(l.take(k) =~= t0);
            assert(l.skip(k) =~= rest);
            // the whitespace at the head of the remainder is dropped
            assert(ws_tokens(rest) == ws_tokens(rest.drop_first()));
            if ts.len() == 1 {
                assert(rest.drop_first() =~= tail.drop_first());
                assert(ws_tokens(tail) == ws_tokens(tail.drop_first()));
                assert(seq![t0] + ws_tokens(tail.drop_first()) =~= ts + ws_tokens(tail));
            } else {
                assert(rest.drop_first() =~= join_sp(ts.drop_first()) + tail);
                assert(forall|j: int|
                    0 <= j < ts.drop_first().len() ==> ts.drop_first()[j] == ts[j + 1]);
                lemma_ws_tokens_of_join(ts.drop_first(), tail);
                assert(seq![t0] + (ts.drop_first() + ws_tokens(tail)) =~= ts + ws_tokens(tail));
            }
        }
    }
}

/// Splitting after a newline-terminated prefix splits the parts apart.
proof fn lemma_split_lines_append(u: Seq<char>, t: Seq<char>)
    requires
        u.len() > 0,
        u.last() == '\n',
    ensures
        split_lines(u + t) == split_lines(u) + split_lines(t),
    decreases u.len(),
{
    let p = |c: char| c == '\n';
    crate::strutil::lemma_find_idx(u, p);
    let i = find_idx(u, p);
    assert(i != -1) by {
        if i == -1 {
            assert(!p(u[u.len() - 1]));
        }
    }
    assert(forall|k: int| 0 <= k < i ==> u[k] != '\n');
    assert(forall|k: int| 0 <= k <= i ==> (u + t)[k] == u[k]);
    crate::strutil::lemma_find_idx_is(u + t, p, i);
    assert((u + t).take(i) =~= u.take(i));
    if i == u.len() - 1 {
        assert((u + t).skip(i + 1) =~= t);
        assert(u.skip(i + 1).len() == 0);
        assert(split_lines(u.skip(i + 1)) =~= Seq::<Seq<char>>::empty());
        assert(split_lines(u) == seq![u.take(i)] + split_lines(u.skip(i + 1)));
        assert(split_lines(u) =~= seq![u.take(i)]);
        assert(split_lines(u + t) =~= split_lines(u) + split_lines(t));
    } else {
        assert((u + t).skip(i + 1) =~= u.skip(i + 1) + t);
        assert(u.skip(i + 1).len() > 0 && u.skip(i + 1).last() == '\n');
        lemma_split_lines_append(u.skip(i + 1), t);
        assert(split_lines(u + t) == seq![u.take(i)] + (split_lines(u.skip(i + 1)) + split_lines(
            t,
        )));
        assert(seq![u.take(i)] + (split_lines(u.skip(i + 1)) + split_lines(t)) =~= (seq![u.take(i)]
            + split_lines(u.skip(i + 1))) + split_lines(t));
    }
}

/// Joining whitespace-free tokens writes no newline.
proof fn lemma_join_sp_no_nl(ts: Seq<Seq<char>>)
    requires
        forall|j: int, c: int|
            0 <= j < ts.len() && 0 <= c < ts[j].len() ==> !is_ws(#[trigger] ts[j][c]),
    ensures
        crate::strutil::no_nl(join_sp(ts)),
    decreases ts.len(),
{
    if ts.len() == 0 {
    } else if ts.len() == 1 {
        assert(join_sp(ts) == ts[0]);
        assert(forall|c: int| 0 <= c < ts[0].len() ==> !is_ws(#[trigger] ts[0][c]));
    } else {
        assert(forall|j: int| 0 <= j < ts.drop_first().len() ==> ts.drop_first()[j] == ts[j + 1]);
        lemma_join_sp_no_nl(ts.drop_first());
        let l = join_sp(ts);
        assert(l == ts[0] + seq![' '] + join_sp(ts.drop_first()));
        assert forall|k: int| 0 <= k < l.len() implies l[k] != '\n' by {
            if k < ts[0].len() {
                assert(l[k] == ts[0][k]);
                assert(!is_ws(ts[0][k]));
            } else if k == ts[0].len() {
                assert(l[k] == ' ');
            } else {
                assert(l[k] == join_sp(ts.drop_first())[k - ts[0].len() - 1]);
            }
        }
    }
}

/// An item the codec itself would write: a structured item's schedule is
/// exactly five single-space-separated fields not opening a comment, its
/// command is single-space-separated too, and an opaque item's text is
/// one whole block that decodes back to an opaque item.
pub open spec fn canonical_item(iv: ItemV) -> bool {
    match iv.args {
        PayloadV::Structured(a) => {
            &&& ws_tokens(iv.schedule).len() == 5
            &&& join_sp(ws_tokens(iv.schedule)) == iv.schedule
            &&& join_sp(ws_tokens(iv.cmd)) == iv.cmd
            &&& iv.schedule.len() > 0 && iv.schedule[0] != '#'
        },
        PayloadV::Opaque(raw) => {
            let ls = split_lines(raw + seq!['\n']);
            &&& ls.len() > 0
            &&& forall|k: int| 0 <= k < ls.len() - 1 ==> is_comment(#[trigger] ls[k])
            &&& !is_comment(ls[ls.len() - 1])
            &&& block_item(ls).args is Opaque
            &&& iv.schedule == Seq::<char>::empty()
            &&& iv.cmd == Seq::<char>::empty()
        },
    }
}

/// One canonical item's encoding opens the text with its own block: the
/// lines split off before whatever follows, they have the comment shape
/// of one block, and they decode back to exactly the item.
#[verifier::rlimit(100)]
proof fn lemma_block_of_item(iv: ItemV, rest: Seq<char>)
    requires
        canonical_item(iv),
    ensures
        ({
            let bl = split_lines(encode_item(iv));
            &&& split_lines(encode_item(iv) + rest) == bl + split_lines(rest)
            &&& bl.len() > 0
            &&& forall|k: int| 0 <= k < bl.len() - 1 ==> is_comment(#[trigger] bl[k])
            &&& !is_comment(bl[bl.len() - 1])
            &&& block_item(bl) == iv
        }),
{
    reveal_strlit("# @light-dragon: ");
    let enc = encode_item(iv);
    match iv.args {
        PayloadV::Structured(a) => {
            let l1 = marker() + ser_args(a);
            let l2 = iv.schedule + seq![' '] + iv.cmd;
            assert(enc =~= l1 + seq!['\n'] + (l2 + seq!['\n'] + Seq::<char>::empty()));
            // neither line holds a newline
            assert(marker() =~= seq![
                '#',
                ' ',
                '@',
                'l',
                'i',
                'g',
                'h',
                't',
                '-',
                'd',
                'r',
                'a',
                'g',
                'o',
                'n',
                ':',
                ' ',
            ]);
            crate::payload::lemma_ser_args_no_nl(a);
            assert forall|k: int| 0 <= k < l1.len() implies l1[k] != '\n' by {
                if k >= marker().len() {
                    assert(l1[k] == ser_args(a)[k - marker().len()]);
                }
            }
            lemma_ws_tokens_wf(iv.schedule);
            lemma_ws_tokens_wf(iv.cmd);
            lemma_join_sp_no_nl(ws_tokens(iv.schedule));
            lemma_join_sp_no_nl(ws_tokens(iv.cmd));
            assert forall|k: int| 0 <= k < l2.len() implies l2[k] != '\n' by {
                if k < iv.schedule.len() {
                    assert(l2[k] == iv.schedule[k]);
                } else if k == iv.schedule.len() {
                    assert(l2[k] == ' ');
                } else {
                    assert(l2[k] == iv.cmd[k - iv.schedule.len() - 1]);
                }
            }
            // the encoding is exactly the two lines
            lemma_split_lines_step(l1, l2 + seq!['\n'] + Seq::<char>::empty());
            assert(l2 + seq!['\n'] + Seq::<char>::empty() =~= l2 + seq!['\n']
                + Seq::<char>::empty());
            lemma_split_lines_step(l2, Seq::<char>::empty());
            assert(split_lines(Seq::<char>::empty()) =~= Seq::<Seq<char>>::empty());
            assert(split_lines(enc) =~= seq![l1, l2]);
            assert(enc.len() > 0 && enc.last() == '\n') by {
                assert(enc[enc.len() - 1] == '\n');
            }
            lemma_split_lines_append(enc, rest);
            let bl = split_lines(enc);
            // the block's shape
            assert(is_comment(l1)) by {
                assert(l1[0] == marker()[0]);
            }
            assert(!is_comment(l2)) by {
                assert(l2[0] == iv.schedule[0]);
            }
            assert(bl[0] == l1 && bl[1] == l2 && bl.len() == 2);
            // it decodes back: the marker line is found first
            assert(is_marker_line(l1)) by {
                assert(l1.subrange(0, marker().len() as int) =~= marker());
            }
            lemma_find_idx_is(bl, |l: Seq<char>| is_marker_line(l), 0);
            assert(l1.skip(marker().len() as int) =~= ser_args(a));
            crate::payload::lemma_parse_ser_args(a);
            // and the schedule line re-splits into its fields
            let ts = ws_tokens(iv.schedule);
            let tc = ws_tokens(iv.cmd);
            if tc.len() == 0 {
                assert(iv.cmd =~= Seq::<char>::empty());
                assert(l2 =~= join_sp(ts) + seq![' ']);
                lemma_ws_tokens_of_join(ts, seq![' ']);
                assert(ws_tokens(seq![' ']) =~= Seq::<Seq<char>>::empty()) by {
                    assert(seq![' '].drop_first() =~= Seq::<char>::empty());
                }
                assert(ws_tokens(l2) =~= ts);
                assert(ws_tokens(l2).take(5) =~= ts);
                assert(ws_tokens(l2).skip(5) =~= tc);
            } else {
                lemma_join_sp_concat(ts, tc);
                assert(l2 =~= join_sp(ts + tc));
                assert(forall|j: int| 0 <= j < tc.len() ==> (ts + tc)[j + ts.len()] == tc[j]);
                assert(forall|j: int| 0 <= j < ts.len() ==> (ts + tc)[j] == ts[j]);
                lemma_ws_tokens_of_join(ts + tc, Seq::<char>::empty());
                assert(l2 + Seq::<char>::empty() =~= l2);
                assert(ws_tokens(Seq::<char>::empty()) =~= Seq::<Seq<char>>::empty());
                assert(ws_tokens(l2) =~= ts + tc);
                assert(ws_tokens(l2).take(5) =~= ts);
                assert(ws_tokens(l2).skip(5) =~= tc);
            }
            assert(block_item(bl) =~= iv);
        },
        PayloadV::Opaque(raw) => {
            assert(enc =~= raw + seq!['\n']);
            assert(enc.len() > 0 && enc.last() == '\n') by {
                assert(enc[enc.len() - 1] == '\n');
            }
            lemma_split_lines_append(enc, rest);
            let bl = split_lines(enc);
            // the block's own text is the item's
            lemma_lines_text_of_split(enc);
            lemma_lines_text_join(bl);
            assert(join_lines(bl) + seq!['\n'] == raw + seq!['\n']);
            assert(join_lines(bl).len() == raw.len());
            assert forall|k: int| 0 <= k < raw.len() implies join_lines(bl)[k] == raw[k] by {
                assert(join_lines(bl)[k] == (join_lines(bl) + seq!['\n'])[k]);
                assert(raw[k] == (raw + seq!['\n'])[k]);
            }
            assert(join_lines(bl) =~= raw);
            assert(block_item(bl) =~= iv);
        },
    }
}

/// Round trip of canonical items: decoding their encoded table gives the
/// items back.
pub proof fn lemma_decode_of_encode(ivs: Seq<ItemV>)
    requires
        forall|i: int| 0 <= i < ivs.len() ==> canonical_item(#[trigger] ivs[i]),
    ensures
        items_of(encode_items(ivs)) == ivs,
    decreases ivs.len(),
{
    if ivs.len() == 0 {
        assert(split_lines(encode_items(ivs)) =~= Seq::<Seq<char>>::empty());
        assert(split_blocks(Seq::<Seq<char>>::empty()) =~= Seq::<Seq<Seq<char>>>::empty());
        assert(items_of(encode_items(ivs)) =~= ivs);
    } else {
        let iv = ivs[0];
        let rest_text = encode_items(ivs.drop_first());
        assert(encode_items(ivs) == encode_item(iv) + rest_text);
        lemma_block_of_item(iv, rest_text);
        let bl = split_lines(encode_item(iv));
        lemma_split_blocks_step(bl.drop_last(), bl.last(), split_lines(rest_text));
        assert(bl.drop_last() + seq![bl.last()] =~= bl);
        assert(bl.drop_last() + seq![bl.last()] + split_lines(rest_text) =~= bl + split_lines(
            rest_text,
        ));
        assert(forall|i: int|
            0 <= i < ivs.drop_first().len() ==> ivs.drop_first()[i] == ivs[i + 1]);
        lemma_decode_of_encode(ivs.drop_first());
        let bs_rest = split_blocks(split_lines(rest_text));
        assert(split_blocks(split_lines(encode_items(ivs))) == seq![bl] + bs_rest);
        let m = (seq![bl] + bs_rest).map_values(|b: Seq<Seq<char>>| block_item(b));
        assert(m[0] == block_item(bl));
        assert(m.drop_first() =~= bs_rest.map_values(|b: Seq<Seq<char>>| block_item(b)));
        assert(m =~= seq![iv] + ivs.drop_first());
        assert(seq![iv] + ivs.drop_first() =~= ivs);
    }
}

/// Foreign preservation: a block without a marker comment decodes to an
/// opaque item holding exactly the block's text, and re-encodes to that
/// text plus its final newline.
pub proof fn lemma_foreign_block(b: Seq<Seq<char>>)
    requires
        b.len() > 0,
        forall|k: int| 0 <= k < b.len() ==> !is_marker_line(#[trigger] b[k]),
    ensures
        block_item(b).args == PayloadV::Opaque(join_lines(b)),
        encode_item(block_item(b)) == join_lines(b) + seq!['\n'],
{
    let p = |l: Seq<char>| is_marker_line(l);
    lemma_find_idx_none(b, p);
}

/// `join_sp` grows one token at a time.
proof fn lemma_join_sp_snoc(ts: Seq<Seq<char>>, x: Seq<char>)
    ensures
        join_sp(ts.push(x)) == if ts.len() == 0 {
            x
        } else {
            join_sp(ts) + seq![' '] + x
        },
    decreases ts.len(),
{
    if ts.len() == 0 {
        assert(ts.push(x).len() == 1);
        assert(ts.push(x)[0] == x);
    } else {
        assert(ts.push(x).drop_first() =~= ts.drop_first().push(x));
        lemma_join_sp_snoc(ts.drop_first(), x);
        assert(ts.push(x)[0] == ts[0]);
        if ts.len() == 1 {
            assert(join_sp(ts.drop_first().push(x)) == x);
            assert(join_sp(ts) == ts[0]);
        } else {
            assert(join_sp(ts.push(x)) == ts[0] + seq![' '] + (join_sp(ts.drop_first()) + seq![' ']
                + x));
            assert(ts[0] + seq![' '] + (join_sp(ts.drop_first()) + seq![' '] + x) =~= (ts[0]
                + seq![' '] + join_sp(ts.drop_first())) + seq![' '] + x);
        }
    }
}

/// `join_lines` grows one line at a time.
proof fn lemma_join_lines_snoc(b: Seq<Seq<char>>, x: Seq<char>)
    ensures
        join_lines(b.push(x)) == if b.len() == 0 {
            x
        } else {
            join_lines(b) + seq!['\n'] + x
        },
    decreases b.len(),
{
    if b.len() == 0 {
        assert(b.push(x).len() == 1);
        assert(b.push(x)[0] == x);
    } else {
        assert(b.push(x).drop_first() =~= b.drop_first().push(x));
        lemma_join_lines_snoc(b.drop_first(), x);
        assert(b.push(x)[0] == b[0]);
        if b.len() == 1 {
            assert(join_lines(b.drop_first().push(x)) == x);
            assert(join_lines(b) == b[0]);
        } else {
            assert(join_lines(b.push(x)) == b[0] + seq!['\n'] + (join_lines(b.drop_first())
                + seq!['\n'] + x));
            assert(b[0] + seq!['\n'] + (join_lines(b.drop_first()) + seq!['\n'] + x) =~= (b[0]
                + seq!['\n'] + join_lines(b.drop_first())) + seq!['\n'] + x);
        }
    }
}

/// `encode_items` grows one item at a time.
proof fn lemma_encode_items_snoc(s: Seq<ItemV>, x: ItemV)
    ensures
        encode_items(s.push(x)) == encode_items(s) + encode_item(x),
    decreases s.len(),
{
    if s.len() == 0 {
        assert(s.push(x)[0] == x);
        assert(s.push(x).drop_first() =~= Seq::<ItemV>::empty());
        assert(encode_items(Seq::<ItemV>::empty()) == Seq::<char>::empty());
        assert(encode_items(s.push(x)) =~= encode_items(s) + encode_item(x));
    } else {
        assert(s.push(x).drop_first() =~= s.drop_first().push(x));
        lemma_encode_items_snoc(s.drop_first(), x);
        assert(s.push(x)[0] == s[0]);
        assert(encode_items(s.push(x)) == encode_item(s[0]) + (encode_items(s.drop_first())
            + encode_item(x)));
        assert(encode_item(s[0]) + (encode_items(s.drop_first()) + encode_item(x)) =~= (encode_item(
            s[0],
        ) + encode_items(s.drop_first())) + encode_item(x));
    }
}

/// A run of comment lines closed by a non-comment line is one block.
proof fn lemma_split_blocks_step(pre: Seq<Seq<char>>, l: Seq<char>, rest: Seq<Seq<char>>)
    requires
        forall|k: int| 0 <= k < pre.len() ==> is_comment(#[trigger] pre[k]),
        !is_comment(l),
    ensures
        split_blocks(pre + seq![l] + rest) == seq![pre + seq![l]] + split_blocks(rest),
{
    let ls = pre + seq![l] + rest;
    let p = |x: Seq<char>| !is_comment(x);
    assert(ls[pre.len() as int] == l);
    assert(forall|k: int| 0 <= k < pre.len() ==> ls[k] == pre[k]);
    lemma_find_idx_is(ls, p, pre.len() as int);
    assert(ls.take(pre.len() as int + 1) =~= pre + seq![l]);
    assert(ls.skip(pre.len() as int + 1) =~= rest);
}

/// Comment lines with nothing after them are one final block.
proof fn lemma_split_blocks_trailing(pre: Seq<Seq<char>>)
    requires
        forall|k: int| 0 <= k < pre.len() ==> is_comment(#[trigger] pre[k]),
    ensures
        split_blocks(pre) == if pre.len() == 0 {
            Seq::<Seq<Seq<char>>>::empty()
        } else {
            seq![pre]
        },
{
    if pre.len() > 0 {
        lemma_find_idx_none(pre, |x: Seq<char>| !is_comment(x));
    }
}

/// A token runs from a non-whitespace character to the next whitespace.
proof fn lemma_ws_tokens_token(s: Seq<char>, k: int)
    requires
        0 < k <= s.len(),
        forall|t: int| 0 <= t < k ==> !is_ws(#[trigger] s[t]),
        k < s.len() ==> is_ws(s[k]),
    ensures
        ws_tokens(s) == seq![s.take(k)] + ws_tokens(s.skip(k)),
{
    let p = |c: char| is_ws(c);
    if k < s.len() {
        lemma_find_idx_is(s, p, k);
    } else {
        lemma_find_idx_none(s, p);
        assert(s.take(k) =~= s);
        assert(s.skip(k).len() == 0);
        assert(seq![s.take(k)] + ws_tokens(s.skip(k)) =~= seq![s]);
    }
}

/// The characters of `v` between two positions.
fn subvec(v: &Vec<char>, a: usize, b: usize) -> (r: Vec<char>)
    requires
        a <= b <= v@.len(),
    ensures
        r@ == v@.subrange(a as int, b as int),
{
    let mut r: Vec<char> = Vec::new();
    let mut i: usize = a;
    while i < b
        invariant
            a <= i <= b <= v@.len(),
            r@ == v@.subrange(a as int, i as int),
        decreases b - i,
    {
        r.push(v[i]);
        i = i + 1;
        proof {
            assert(r@ =~= v@.subrange(a as int, i as int));
        }
    }
    r
}

/// First whitespace position in `v[from..]`, or the length.
fn find_ws_from(v: &Vec<char>, from: usize) -> (r: usize)
    requires
        from <= v@.len(),
    ensures
        from <= r <= v@.len(),
        forall|t: int| from <= t < r ==> !is_ws(#[trigger] v@[t]),
        r < v@.len() ==> is_ws(v@[r as int]),
{
    let n = v.len();
    let mut i: usize = from;
    while i < n
        invariant
            from <= i <= n,
            n == v@.len(),
            forall|t: int| from <= t < i ==> !is_ws(#[trigger] v@[t]),
        decreases n - i,
    {
        if crate::scan::is_ws_c(v[i]) {
            return i;
        }
        i = i + 1;
    }
    n
}

/// The whitespace-separated tokens of a line.
fn ws_tokens_exec(l: &Vec<char>) -> (r: Vec<Vec<char>>)
    ensures
        vv_views(r@) == ws_tokens(l@),
{
    let n = l.len();
    let mut out: Vec<Vec<char>> = Vec::new();
    let mut i: usize = 0;
    proof {
        assert(l@.skip(0) =~= l@);
    }
    while i < n
        invariant
            i <= n,
            n == l@.len(),
            ws_tokens(l@) == vv_views(out@) + ws_tokens(l@.skip(i as int)),
        decreases n - i,
    {
        if crate::scan::is_ws_c(l[i]) {
            proof {
                assert(l@.skip(i as int)[0] == l@[i as int]);
                assert(l@.skip(i as int).drop_first() =~= l@.skip(i + 1));
            }
            i = i + 1;
        } else {
            let k = find_ws_from(l, i);
            proof {
                let s = l@.skip(i as int);
                assert(forall|t: int| 0 <= t < s.len() ==> s[t] == l@[i + t]);
                lemma_ws_tokens_token(s, k - i);
                assert(s.take(k - i) =~= l@.subrange(i as int, k as int));
                assert(s.skip(k - i) =~= l@.skip(k as int));
            }
            let tok = subvec(l, i, k);
            let ghost out0 = vv_views(out@);
            out.push(tok);
            proof {
                assert(vv_views(out@) =~= out0.push(l@.subrange(i as int, k as int)));
                assert(out0.push(l@.subrange(i as int, k as int)) + ws_tokens(l@.skip(k as int))
                    =~= out0 + (seq![l@.subrange(i as int, k as int)] + ws_tokens(
                    l@.skip(k as int),
                )));
            }
            i = k;
        }
    }
    proof {
        assert(ws_tokens(l@.skip(n as int)) =~= Seq::<Seq<char>>::empty());
        assert(vv_views(out@) =~= ws_tokens(l@));
    }
    out
}

/// Tokens `from..to`, joined with single spaces.
fn join_tokens(toks: &Vec<Vec<char>>, from: usize, to: usize) -> (r: Vec<char>)
    requires
        from <= to <= toks@.len(),
    ensures
        r@ == join_sp(vv_views(toks@).subrange(from as int, to as int)),
{
    let mut out: Vec<char> = Vec::new();
    let mut i: usize = from;
    proof {
        assert(vv_views(toks@).subrange(from as int, from as int) =~= Seq::<Seq<char>>::empty());
    }
    while i < to
        invariant
            from <= i <= to <= toks@.len(),
            out@ == join_sp(vv_views(toks@).subrange(from as int, i as int)),
        decreases to - i,
    {
        let ghost pre = vv_views(toks@).subrange(from as int, i as int);
        if i > from {
            out.push(' ');
        }
        extend_chars(&mut out, &toks[i]);
        proof {
            lemma_join_sp_snoc(pre, toks@[i as int]@);
            assert(pre.push(toks@[i as int]@) =~= vv_views(toks@).subrange(from as int, i + 1));
            if i > from {
                assert(out@ =~= join_sp(pre) + seq![' '] + toks@[i as int]@);
            } else {
                assert(pre.len() == 0);
                assert(out@ =~= toks@[i as int]@);
            }
        }
        i = i + 1;
    }
    out
}

/// A block's lines, rejoined with newlines and no final one.
fn join_block_lines(blk: &Vec<Vec<char>>) -> (r: Vec<char>)
    ensures
        r@ == join_lines(vv_views(blk@)),
{
    let n = blk.len();
    let mut out: Vec<char> = Vec::new();
    let mut i: usize = 0;
    proof {
        assert(vv_views(blk@).subrange(0, 0) =~= Seq::<Seq<char>>::empty());
    }
    while i < n
        invariant
            i <= n,
            n == blk@.len(),
            out@ == join_lines(vv_views(blk@).subrange(0, i as int)),
        decreases n - i,
    {
        let ghost pre = vv_views(blk@).subrange(0, i as int);
        if i > 0 {
            out.push('\n');
        }
        extend_chars(&mut out, &blk[i]);
        proof {
            lemma_join_lines_snoc(pre, blk@[i as int]@);
            assert(pre.push(blk@[i as int]@) =~= vv_views(blk@).subrange(0, i + 1));
            if i > 0 {
                assert(out@ =~= join_lines(pre) + seq!['\n'] + blk@[i as int]@);
            } else {
                assert(pre.len() == 0);
                assert(out@ =~= blk@[i as int]@);
            }
        }
        i = i + 1;
    }
    proof {
        assert(vv_views(blk@).subrange(0, n as int) =~= vv_views(blk@));
    }
    out
}

/// The first marker comment of a block, if any.
fn find_marker(blk: &Vec<Vec<char>>) -> (r: Option<usize>)
    ensures
        match r {
            Some(j) => j < blk@.len() && is_marker_line(blk@[j as int]@) && (forall|t: int|
                0 <= t < j ==> !is_marker_line(#[trigger] blk@[t]@)),
            None => forall|t: int| 0 <= t < blk@.len() ==> !is_marker_line(#[trigger] blk@[t]@),
        },
{
    let n = blk.len();
    let mut j: usize = 0;
    while j < n
        invariant
            j <= n,
            n == blk@.len(),
            forall|t: int| 0 <= t < j ==> !is_marker_line(#[trigger] blk@[t]@),
        decreases n - j,
    {
        proof {
            assert(blk@[j as int]@.skip(0) =~= blk@[j as int]@);
        }
        if vec_has_prefix_at(&blk[j], 0, "# @light-dragon: ") {
            return Some(j);
        }
        j = j + 1;
    }
    None
}

/// What one block decodes to.
fn block_to_item(blk: &Vec<Vec<char>>) -> (r: Item)
    requires
        blk@.len() > 0,
    ensures
        r@ == block_item(vv_views(blk@)),
{
    proof {
        reveal_strlit("# @light-dragon: ");
    }
    let ghost bv = vv_views(blk@);
    let n = blk.len();
    let last = &blk[n - 1];
    let last_comment = last.len() > 0 && last[0] == '#';
    proof {
        assert(bv[bv.len() - 1] == blk@[n - 1]@);
        assert(last_comment == is_comment(bv[bv.len() - 1]));
    }
    if !last_comment {
        let mk = find_marker(blk);
        if let Some(j) = mk {
            proof {
                lemma_find_idx_is(bv, |l: Seq<char>| is_marker_line(l), j as int);
            }
            let line = &blk[j];
            proof {
                assert(marker().len() == 17);
                assert(has_prefix(line@, marker()));
            }
            if let Some(a) = parse_args_chars(line, 17) {
                let toks = ws_tokens_exec(last);
                if toks.len() >= 5 {
                    let sched = join_tokens(&toks, 0, 5);
                    let cmd = join_tokens(&toks, 5, toks.len());
                    proof {
                        let tv = ws_tokens(bv[bv.len() - 1]);
                        assert(vv_views(toks@) == tv);
                        assert(vv_views(toks@).subrange(0, 5) =~= tv.take(5));
                        assert(vv_views(toks@).subrange(5, toks@.len() as int) =~= tv.skip(5));
                    }
                    let item = Item {
                        schedule: chars_to_string(&sched),
                        cmd: chars_to_string(&cmd),
                        args: Payload::Structured(a),
                    };
                    proof {
                        assert(item@ =~= block_item(bv));
                    }
                    return item;
                }
                // too few schedule fields: the block stays opaque
                let raw = join_block_lines(blk);
                let item = Item {
                    schedule: String::new(),
                    cmd: String::new(),
                    args: Payload::Opaque(chars_to_string(&raw)),
                };
                proof {
                    assert(ws_tokens(bv[bv.len() - 1]).len() < 5);
                    assert(item@ =~= block_item(bv));
                }
                return item;
            }
            // the payload is not in canonical form: the block stays opaque
            let raw = join_block_lines(blk);
            let item = Item {
                schedule: String::new(),
                cmd: String::new(),
                args: Payload::Opaque(chars_to_string(&raw)),
            };
            proof {
                assert(parse_args(bv[j as int].skip(marker().len() as int)) is None);
                assert(item@ =~= block_item(bv));
            }
            return item;
        }
        proof {
            lemma_find_idx_none(bv, |l: Seq<char>| is_marker_line(l));
        }
    }
    let raw = join_block_lines(blk);
    let item = Item {
        schedule: String::new(),
        cmd: String::new(),
        args: Payload::Opaque(chars_to_string(&raw)),
    };
    proof {
        assert(item@ =~= block_item(bv));
    }
    item
}

/// Decodes the whole job-table text into items, one per block. Opaque
/// blocks are preserved byte for byte; structured blocks carry the parsed
/// payload and the split schedule line.
pub fn decode(text: &str) -> (r: Vec<Item>)
    ensures
        views(r@) == items_of(text@),
{
    let v = chars_vec(text);
    let n = v.len();
    let mut out: Vec<Item> = Vec::new();
    let mut blk: Vec<Vec<char>> = Vec::new();
    let mut cur: Vec<char> = Vec::new();
    let ghost mut done: Seq<Seq<Seq<char>>> = Seq::empty();
    let mut i: usize = 0;
    proof {
        assert(cur@ + v@.skip(0) =~= v@);
        assert(vv_views(blk@) + split_lines(v@) =~= split_lines(v@));
        assert(done + split_blocks(split_lines(v@)) =~= split_blocks(split_lines(v@)));
        assert(views(out@) =~= done.map_values(|b: Seq<Seq<char>>| block_item(b)));
    }
    while i < n
        invariant
            i <= n,
            n == v@.len(),
            v@ == text@,
            forall|k: int| 0 <= k < cur@.len() ==> cur@[k] != '\n',
            forall|k: int| 0 <= k < blk@.len() ==> is_comment(#[trigger] vv_views(blk@)[k]),
            split_blocks(split_lines(text@)) == done + split_blocks(
                vv_views(blk@) + split_lines(cur@ + v@.skip(i as int)),
            ),
            views(out@) == done.map_values(|b: Seq<Seq<char>>| block_item(b)),
        decreases n - i,
    {
        let c = v[i];
        if c == '\n' {
            proof {
                assert(cur@ + v@.skip(i as int) =~= cur@ + seq!['\n'] + v@.skip(i + 1));
                lemma_split_lines_step(cur@, v@.skip(i + 1));
            }
            let line_is_comment = cur.len() > 0 && cur[0] == '#';
            let ghost curv = cur@;
            let ghost blkv = vv_views(blk@);
            if line_is_comment {
                blk.push(cur);
                proof {
                    assert(vv_views(blk@) =~= blkv.push(curv));
                    assert(blkv.push(curv) + split_lines(v@.skip(i + 1)) =~= blkv + (seq![curv]
                        + split_lines(v@.skip(i + 1))));
                }
            } else {
                blk.push(cur);
                proof {
                    assert(vv_views(blk@) =~= blkv.push(curv));
                    lemma_split_blocks_step(blkv, curv, split_lines(v@.skip(i + 1)));
                    assert(blkv + seq![curv] + split_lines(v@.skip(i + 1)) =~= blkv + (seq![curv]
                        + split_lines(v@.skip(i + 1))));
                }
                let item = block_to_item(&blk);
                let ghost outv = views(out@);
                out.push(item);
                proof {
                    assert(blkv.push(curv) =~= blkv + seq![curv]);
                    done = done.push(blkv + seq![curv]);
                    assert(views(out@) =~= outv.push(block_item(blkv + seq![curv])));
                    assert(views(out@) =~= done.map_values(|b: Seq<Seq<char>>| block_item(b)));
                }
                blk = Vec::new();
                proof {
                    assert(vv_views(blk@) + split_lines(v@.skip(i + 1)) =~= split_lines(
                        v@.skip(i + 1),
                    ));
                }
            }
            cur = Vec::new();
            proof {
                assert(cur@ + v@.skip(i + 1) =~= v@.skip(i + 1));
            }
        } else {
            let ghost curv = cur@;
            cur.push(c);
            proof {
                assert(cur@ + v@.skip(i + 1) =~= curv + v@.skip(i as int));
            }
        }
        i = i + 1;
    }
    proof {
        assert(v@.skip(n as int).len() == 0);
    }
    if cur.len() > 0 {
        proof {
            lemma_split_lines_last(cur@);
            assert(cur@ + v@.skip(n as int) =~= cur@);
        }
        let ghost curv = cur@;
        let ghost blkv = vv_views(blk@);
        blk.push(cur);
        proof {
            assert(vv_views(blk@) =~= blkv.push(curv));
            assert(blkv.push(curv) =~= blkv + seq![curv]);
            assert(blkv + split_lines(curv) =~= blkv + seq![curv]);
        }
    } else {
        proof {
            assert((cur@ + v@.skip(n as int)).len() == 0);
            assert(split_lines(cur@ + v@.skip(n as int)) =~= Seq::<Seq<char>>::empty());
            assert(vv_views(blk@) + Seq::<Seq<char>>::empty() =~= vv_views(blk@));
        }
    }
    // whatever is left is one final block, or nothing
    if blk.len() > 0 {
        let ghost blkv = vv_views(blk@);
        proof {
            if is_comment(blkv[blkv.len() - 1]) {
                lemma_split_blocks_trailing(blkv);
            } else {
                lemma_split_blocks_step(
                    blkv.drop_last(),
                    blkv.last(),
                    Seq::<Seq<char>>::empty(),
                );
                assert(blkv.drop_last() + seq![blkv.last()] =~= blkv);
                assert(split_blocks(Seq::<Seq<char>>::empty()) =~= Seq::<Seq<Seq<char>>>::empty());
                assert(seq![blkv] + Seq::<Seq<Seq<char>>>::empty() =~= seq![blkv]);
            }
            assert(split_blocks(blkv) == seq![blkv]);
        }
        let item = block_to_item(&blk);
        let ghost outv = views(out@);
        out.push(item);
        proof {
            done = done.push(blkv);
            assert(views(out@) =~= outv.push(block_item(blkv)));
            assert(views(out@) =~= done.map_values(|b: Seq<Seq<char>>| block_item(b)));
            assert(done =~= split_blocks(split_lines(text@)));
        }
    } else {
        proof {
            assert(split_blocks(Seq::<Seq<char>>::empty()) =~= Seq::<Seq<Seq<char>>>::empty());
            assert(done + Seq::<Seq<Seq<char>>>::empty() =~= done);
            assert(done =~= split_blocks(split_lines(text@)));
        }
    }
    proof {
        assert(views(out@) =~= items_of(text@));
    }
    out
}

/// Encodes items back to job-table text: the marker comment and schedule
/// line for a structured item, the stored text for an opaque one, each
/// block closed with a newline.
pub fn encode(items: &Vec<Item>) -> (r: String)
    ensures
        r@ == encode_items(views(items@)),
{
    let n = items.len();
    let mut s = String::new();
    let mut i: usize = 0;
    proof {
        assert(views(items@).subrange(0, 0) =~= Seq::<ItemV>::empty());
    }
    while i < n
        invariant
            i <= n,
            n == items@.len(),
            s@ == encode_items(views(items@).subrange(0, i as int)),
        decreases n - i,
    {
        let ghost pre = views(items@).subrange(0, i as int);
        let it = &items[i];
        match &it.args {
            Payload::Structured(a) => {
                s.append("# @light-dragon: ");
                let av = args_to_chars(a);
                let astr = chars_to_string(&av);
                s.append(astr.as_str());
                push_char(&mut s, '\n');
                s.append(it.schedule.as_str());
                push_char(&mut s, ' ');
                s.append(it.cmd.as_str());
                push_char(&mut s, '\n');
            },
            Payload::Opaque(raw) => {
                s.append(raw.as_str());
                push_char(&mut s, '\n');
            },
        }
        proof {
            lemma_encode_items_snoc(pre, items@[i as int]@);
            assert(pre.push(items@[i as int]@) =~= views(items@).subrange(0, i + 1));
            assert(s@ =~= encode_items(pre) + encode_item(items@[i as int]@));
        }
        i = i + 1;
    }
    proof {
        assert(views(items@).subrange(0, n as int) =~= views(items@));
    }
    s
}

} // verus!
