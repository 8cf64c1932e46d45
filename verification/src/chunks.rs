//! Lines gathered into chunks that keep to a budget.

use crate::text;
use vstd::prelude::*;

verus! {

/// The finished chunks and the chunk at hand once another line has been placed. A line that
/// fits into the chunk at hand goes there; otherwise that chunk is finished, and the line starts
/// a new one, or is a chunk of its own where it exceeds the budget by itself.
pub open spec fn place_line(
    state: (Seq<Seq<char>>, Seq<char>),
    line: Seq<char>,
    budget: nat,
) -> (Seq<Seq<char>>, Seq<char>) {
    let (chunks, chunk) = state;
    if chunk.len() > 0 && text::byte_len(chunk) + 1 + text::byte_len(line) <= budget {
        (chunks, chunk + seq!['\n'] + line)
    } else {
        let done = if chunk.len() > 0 {
            chunks.push(chunk)
        } else {
            chunks
        };
        if text::byte_len(line) <= budget {
            (done, line)
        } else {
            (done.push(line), seq![])
        }
    }
}

/// The finished chunks and the chunk at hand once all lines have been placed.
pub open spec fn place_lines(lines: Seq<Seq<char>>, budget: nat) -> (Seq<Seq<char>>, Seq<char>)
    decreases lines.len(),
{
    if lines.len() == 0 {
        (seq![], seq![])
    } else {
        place_line(place_lines(lines.drop_last(), budget), lines.last(), budget)
    }
}

/// The chunks of lines with a budget.
pub open spec fn chunked(lines: Seq<Seq<char>>, budget: nat) -> Seq<Seq<char>> {
    let (chunks, chunk) = place_lines(lines, budget);
    if chunk.len() > 0 {
        chunks.push(chunk)
    } else {
        chunks
    }
}

/// Gathers lines into chunks with a budget of bytes.
pub fn chunk_lines(lines: &Vec<String>, budget: usize) -> (r: Vec<String>)
    ensures
        r.deep_view() == chunked(lines.deep_view(), budget as nat),
{
    let ghost all = lines.deep_view();
    let mut chunks: Vec<String> = Vec::new();
    let mut chunk = String::new();
    assert(chunks.deep_view() =~= seq![]);
    for i in 0..lines.len()
        invariant
            all == lines.deep_view(),
            (chunks.deep_view(), chunk@) == place_lines(all.take(i as int), budget as nat),
    {
        proof {
            let upto = all.take(i + 1);
            assert(upto.drop_last() =~= all.take(i as int));
            assert(upto.last() == lines@[i as int]@);
        }
        let line = lines[i].as_str();
        let size = text::byte_count(line);
        if !chunk.as_str().is_empty() && text::byte_count(chunk.as_str()) as u128 + 1
            + size as u128 <= budget as u128 {
            let ghost before = chunk@;
            chunk.push('\n');
            chunk.append(line);
            assert(chunk@ =~= before + seq!['\n'] + line@);
        } else {
            if !chunk.as_str().is_empty() {
                let ghost before = chunks.deep_view();
                let ghost done = chunk@;
                chunks.push(chunk);
                assert(chunks.deep_view() =~= before.push(done));
            }
            if size <= budget {
                chunk = text::copy_text(line);
            } else {
                let ghost before = chunks.deep_view();
                chunks.push(text::copy_text(line));
                assert(chunks.deep_view() =~= before.push(line@));
                chunk = String::new();
            }
        }
    }
    assert(all.take(all.len() as int) =~= all);
    if !chunk.as_str().is_empty() {
        let ghost before = chunks.deep_view();
        let ghost done = chunk@;
        chunks.push(chunk);
        assert(chunks.deep_view() =~= before.push(done));
    }
    chunks
}

/// Joining with one more part.
proof fn lemma_join_push(parts: Seq<Seq<char>>, part: Seq<char>, sep: Seq<char>)
    ensures
        text::join(parts.push(part), sep) == if parts.len() == 0 {
            part
        } else {
            text::join(parts, sep) + sep + part
        },
{
    assert(parts.push(part).drop_last() =~= parts);
}

/// No line is lost, doubled or moved: the chunks, joined by line feeds, are the lines, joined by
/// line feeds. An empty line at the start of a chunk would be lost.
pub proof fn lemma_chunks_hold_lines(lines: Seq<Seq<char>>, budget: nat)
    requires
        forall|i: int| 0 <= i < lines.len() ==> (#[trigger] lines[i]).len() > 0,
    ensures
        text::join(chunked(lines, budget), "\n"@) == text::join(lines, "\n"@),
        lines.len() > 0 ==> chunked(lines, budget).len() > 0,
    decreases lines.len(),
{
    reveal_strlit("\n");
    let sep = "\n"@;
    assert(sep =~= seq!['\n']);
    if lines.len() > 0 {
        let front = lines.drop_last();
        let line = lines.last();
        assert forall|i: int| 0 <= i < front.len() implies (#[trigger] front[i]).len() > 0 by {
            assert(front[i] == lines[i]);
        }
        lemma_chunks_hold_lines(front, budget);
        let state = place_lines(front, budget);
        let (chunks, chunk) = state;
        let before = chunked(front, budget);
        let after = chunked(lines, budget);
        assert(lines[lines.len() - 1].len() > 0);
        assert(front.push(line) =~= lines);
        lemma_join_push(front, line, sep);
        if front.len() == 0 {
            assert(before =~= seq![]);
        }
        if chunk.len() > 0 && text::byte_len(chunk) + 1 + text::byte_len(line) <= budget {
            let longer = chunk + seq!['\n'] + line;
            assert(after =~= chunks.push(longer));
            assert(before =~= chunks.push(chunk));
            lemma_join_push(chunks, longer, sep);
            lemma_join_push(chunks, chunk, sep);
            assert(text::join(chunks, sep) + sep + longer =~= text::join(chunks, sep) + sep + chunk
                + sep + line);
        } else {
            assert(after =~= before.push(line));
            lemma_join_push(before, line, sep);
        }
    }
}

/// Every chunk keeps to the budget, unless it is a single line that exceeds the budget.
pub proof fn lemma_chunks_keep_budget(lines: Seq<Seq<char>>, budget: nat)
    ensures
        forall|i: int|
            0 <= i < chunked(lines, budget).len() ==> text::byte_len(
                #[trigger] chunked(lines, budget)[i],
            ) <= budget || lines.contains(chunked(lines, budget)[i]),
    decreases lines.len(),
{
    let all = chunked(lines, budget);
    lemma_places_keep_budget(lines, budget);
    let (chunks, chunk) = place_lines(lines, budget);
    assert forall|i: int| 0 <= i < all.len() implies text::byte_len(#[trigger] all[i]) <= budget
        || lines.contains(all[i]) by {
        if i < chunks.len() {
            assert(all[i] == chunks[i]);
        }
    }
}

/// The chunk at hand keeps to the budget, and a finished one does or is a single line.
proof fn lemma_places_keep_budget(lines: Seq<Seq<char>>, budget: nat)
    ensures
        text::byte_len(place_lines(lines, budget).1) <= budget,
        forall|i: int|
            0 <= i < place_lines(lines, budget).0.len() ==> text::byte_len(
                #[trigger] place_lines(lines, budget).0[i],
            ) <= budget || lines.contains(place_lines(lines, budget).0[i]),
    decreases lines.len(),
{
    let (chunks, chunk) = place_lines(lines, budget);
    if lines.len() == 0 {
        text::lemma_byte_len_positive(chunk);
    } else {
        let front = lines.drop_last();
        let line = lines.last();
        lemma_places_keep_budget(front, budget);
        let (before, at_hand) = place_lines(front, budget);
        if at_hand.len() > 0 && text::byte_len(at_hand) + 1 + text::byte_len(line) <= budget {
            lemma_byte_len_joined(at_hand, line);
        } else {
            text::lemma_byte_len_positive(Seq::<char>::empty());
        }
        assert forall|i: int| 0 <= i < chunks.len() implies text::byte_len(#[trigger] chunks[i])
            <= budget || lines.contains(chunks[i]) by {
            if i < before.len() {
                assert(chunks[i] == before[i]);
                if front.contains(before[i]) {
                    let k = choose|k: int| 0 <= k < front.len() && front[k] == before[i];
                    assert(lines[k] == before[i]);
                }
            } else if chunks[i] != at_hand {
                assert(chunks[i] == line);
                assert(lines[lines.len() - 1] == line);
            }
        }
    }
}

/// The bytes of two texts with a line feed between them.
proof fn lemma_byte_len_joined(a: Seq<char>, b: Seq<char>)
    ensures
        text::byte_len(a + seq!['\n'] + b) == text::byte_len(a) + 1 + text::byte_len(b),
{
    text::lemma_byte_len_add(a + seq!['\n'], b);
    text::lemma_byte_len_add(a, seq!['\n']);
    reveal_with_fuel(vstd::utf8::encode_utf8, 2);
    assert(seq!['\n'].drop_first() =~= Seq::<char>::empty());
}

/// Chunks are as large as they can be: no two neighbours would keep to the budget together.
pub proof fn lemma_chunks_are_full(lines: Seq<Seq<char>>, budget: nat)
    ensures
        forall|i: int|
            0 <= i < chunked(lines, budget).len() - 1 ==> text::byte_len(
                #[trigger] chunked(lines, budget)[i],
            ) + 1 + text::byte_len(chunked(lines, budget)[i + 1]) > budget,
    decreases lines.len(),
{
    if lines.len() > 0 {
        let front = lines.drop_last();
        let line = lines.last();
        lemma_chunks_are_full(front, budget);
        let (chunks, chunk) = place_lines(front, budget);
        let before = chunked(front, budget);
        let after = chunked(lines, budget);
        if chunk.len() > 0 && text::byte_len(chunk) + 1 + text::byte_len(line) <= budget {
            let longer = chunk + seq!['\n'] + line;
            lemma_byte_len_joined(chunk, line);
            assert(after =~= chunks.push(longer));
            assert(before =~= chunks.push(chunk));
            assert forall|i: int| 0 <= i < after.len() - 1 implies text::byte_len(
                #[trigger] after[i],
            ) + 1 + text::byte_len(after[i + 1]) > budget by {
                assert(after[i] == before[i]);
                if i + 1 < after.len() - 1 {
                    assert(after[i + 1] == before[i + 1]);
                } else {
                    assert(before[i + 1] == chunk);
                }
            }
        } else {
            assert(line.len() > 0 ==> after =~= before.push(line));
            assert(line.len() == 0 ==> after =~= before || after =~= before.push(line));
            lemma_last_is_full(front, budget);
            assert forall|i: int| 0 <= i < after.len() - 1 implies text::byte_len(
                #[trigger] after[i],
            ) + 1 + text::byte_len(after[i + 1]) > budget by {
                if i + 1 < before.len() {
                    assert(after[i] == before[i]);
                    assert(after[i + 1] == before[i + 1]);
                } else {
                    assert(after[i] == before.last());
                    assert(after[i + 1] == line);
                }
            }
        }
    }
}

/// Where there is no chunk at hand, the last finished one leaves no room for a line feed.
proof fn lemma_last_is_full(lines: Seq<Seq<char>>, budget: nat)
    ensures
        ({
            let (chunks, chunk) = place_lines(lines, budget);
            chunk.len() == 0 && chunks.len() > 0 ==> text::byte_len(chunks.last()) + 1 > budget
        }),
    decreases lines.len(),
{
    if lines.len() > 0 {
        lemma_last_is_full(lines.drop_last(), budget);
        text::lemma_byte_len_positive(lines.last());
    }
}

/// One more line goes to the end of the last chunk, behind a line feed, if and only if it fits there
/// within the budget; otherwise it is a new chunk, unless it is empty. No lines make no chunks.
pub proof fn lemma_one_more_line(lines: Seq<Seq<char>>, line: Seq<char>, budget: nat)
    ensures
        chunked(Seq::<Seq<char>>::empty(), budget) == Seq::<Seq<char>>::empty(),
        ({
            let before = chunked(lines, budget);
            chunked(lines.push(line), budget) == if before.len() > 0 && text::byte_len(
                before.last(),
            ) + 1 + text::byte_len(line) <= budget {
                before.drop_last().push(before.last() + seq!['\n'] + line)
            } else if line.len() > 0 {
                before.push(line)
            } else {
                before
            }
        }),
{
    let before = chunked(lines, budget);
    let after = chunked(lines.push(line), budget);
    let (chunks, chunk) = place_lines(lines, budget);
    assert(lines.push(line).drop_last() =~= lines);
    lemma_last_is_full(lines, budget);
    text::lemma_byte_len_positive(line);
    if chunk.len() > 0 {
        assert(before.drop_last() =~= chunks);
        assert(before.last() == chunk);
    }
    assert(chunked(Seq::<Seq<char>>::empty(), budget) =~= Seq::<Seq<char>>::empty());
    assert(after =~= if before.len() > 0 && text::byte_len(before.last()) + 1 + text::byte_len(line)
        <= budget {
        before.drop_last().push(before.last() + seq!['\n'] + line)
    } else if line.len() > 0 {
        before.push(line)
    } else {
        before
    });
}

/// Every line that is not empty stands in one of the chunks, in full.
pub proof fn lemma_line_in_a_chunk(lines: Seq<Seq<char>>, budget: nat, i: int) -> (k: int)
    requires
        0 <= i < lines.len(),
        lines[i].len() > 0,
    ensures
        0 <= k < chunked(lines, budget).len(),
        text::has_text(chunked(lines, budget)[k], lines[i]),
    decreases lines.len(),
{
    let front = lines.drop_last();
    let line = lines.last();
    let none = Seq::<char>::empty();
    lemma_one_more_line(front, line, budget);
    assert(front.push(line) =~= lines);
    let before = chunked(front, budget);
    let after = chunked(lines, budget);
    if i == lines.len() - 1 {
        let k = after.len() - 1;
        if before.len() > 0 && text::byte_len(before.last()) + 1 + text::byte_len(line) <= budget {
            let start = before.last() + seq!['\n'];
            text::lemma_occurrence(start, line, none);
            assert(start + line + none =~= after[k]);
        } else {
            text::lemma_occurrence(none, line, none);
            assert(none + line + none =~= after[k]);
        }
        k
    } else {
        let k = lemma_line_in_a_chunk(front, budget, i);
        assert(front[i] == lines[i]);
        if k < after.len() && after[k] == before[k] {
        } else {
            let needle = lines[i];
            text::lemma_occurrence(none, needle, none);
            let (a, b) = choose|a: Seq<char>, b: Seq<char>|
                before[k] == #[trigger] (a + needle + b);
            let back = b + (seq!['\n'] + line);
            text::lemma_occurrence(a, needle, back);
            assert(k == before.len() - 1);
            assert(a + needle + back =~= before[k] + seq!['\n'] + line);
            assert(after[k] == before[k] + seq!['\n'] + line);
        }
        k
    }
}

} // verus!
