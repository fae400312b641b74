//! The progress file: one line per level, `time,gems,gems_total;ids`, where
//! `ids` lists the unlocked drawings. Damaged lines read as no progress.
use crate::text::{
    all_digits, is_digit, lemma_decimal_text,     decimal_text, lemma_number_of_decimal_text, lemma_pieces_concat, lemma_pieces_nonempty,
    lemma_pieces_single, number_of, parse_number, pieces, push_decimal, split_ranges,
};
use vstd::prelude::*;

verus! {

/// `;`, between the general fields and the unlocked drawings.
pub const SEMICOLON: u8 = 0x3b;

/// `,`, between the fields of either part.
pub const COMMA: u8 = 0x2c;

/// The number of drawings a level can hold.
pub const DRAWING_SLOTS: usize = 3;

/// Progress on one level.
#[derive(Clone, Copy, Debug, PartialEq, Eq)]
pub struct LevelStats {
    /// Position of the level, counted from zero.
    pub level: usize,
    pub time_seconds: u32,
    pub gems_collected: u32,
    pub gems_total: u32,
    /// Which drawings, by id, the player has unlocked.
    pub unlocked_drawings: [bool; 3],
}

/// How many drawings each level holds: three on the first, two on the
/// second and third, none on any other.
pub open spec fn drawings_total_of(level: int) -> u32 {
    if level == 0 {
        3
    } else if level == 1 || level == 2 {
        2
    } else {
        0
    }
}

/// How many entries of `u` are `true`.
pub open spec fn count_true(u: Seq<bool>) -> nat
    decreases u.len(),
{
    if u.len() == 0 {
        0
    } else {
        count_true(u.drop_last()) + if u.last() {
            1nat
        } else {
            0nat
        }
    }
}

/// How many drawings the level at position `level` holds.
pub fn drawings_total_for(level: usize) -> (r: u32)
    ensures
        r == drawings_total_of(level as int),
{
    if level == 0 {
        3
    } else if level == 1 || level == 2 {
        2
    } else {
        0
    }
}

impl LevelStats {
    /// The record of a level without progress.
    pub open spec fn is_no_progress(self) -> bool {
        &&& self.time_seconds == 0
        &&& self.gems_collected == 0
        &&& self.gems_total == 0
        &&& forall|d: int| 0 <= d < 3 ==> !#[trigger] self.unlocked_drawings@[d]
    }

    pub fn no_progress(level: usize) -> (r: LevelStats)
        ensures
            r.level == level,
            r.is_no_progress(),
    {
        LevelStats {
            level,
            time_seconds: 0,
            gems_collected: 0,
            gems_total: 0,
            unlocked_drawings: [false; 3],
        }
    }

    /// The number of unlocked drawings, counted from the flags each time.
    pub fn drawings_unlocked_count(&self) -> (r: u32)
        ensures
            r == count_true(self.unlocked_drawings@),
    {
        let mut n: u32 = 0;
        let mut d: usize = 0;
        while d < DRAWING_SLOTS
            invariant
                d <= DRAWING_SLOTS,
                n == count_true(self.unlocked_drawings@.subrange(0, d as int)),
                n <= d,
            decreases DRAWING_SLOTS - d,
        {
            proof {
                let u = self.unlocked_drawings@;
                assert(u.subrange(0, d as int + 1).drop_last() =~= u.subrange(0, d as int));
            }
            if self.unlocked_drawings[d] {
                n = n + 1;
            }
            d = d + 1;
        }
        proof {
            assert(self.unlocked_drawings@.subrange(0, 3) =~= self.unlocked_drawings@);
        }
        n
    }

    /// The number of drawings the level holds, from its position alone.
    pub fn drawings_total(&self) -> (r: u32)
        ensures
            r == drawings_total_of(self.level as int),
    {
        drawings_total_for(self.level)
    }
}

/// The three general fields of a line, where it has a `;` and the part
/// before it starts with three numbers; `None` where the line is damaged.
pub open spec fn general_of(line: Seq<u8>) -> Option<(u32, u32, u32)> {
    let parts = pieces(line, SEMICOLON);
    if parts.len() < 2 {
        None
    } else {
        let g = pieces(parts[0], COMMA);
        if g.len() >= 3 && number_of(g[0]) is Some && number_of(g[1]) is Some && number_of(
            g[2],
        ) is Some {
            Some((number_of(g[0])->0, number_of(g[1])->0, number_of(g[2])->0))
        } else {
            None
        }
    }
}

/// Whether one of the first `n` of `ids` is the number `d`.
pub open spec fn listed_among(ids: Seq<Seq<u8>>, n: int, d: u32) -> bool {
    exists|j: int| 0 <= j < n && number_of(#[trigger] ids[j]) == Some(d)
}

/// The id fields of a line: the part after its first `;`, split at commas.
pub open spec fn id_fields(line: Seq<u8>) -> Seq<Seq<u8>> {
    pieces(pieces(line, SEMICOLON)[1], COMMA)
}

/// Whether a line lists drawing `d` among its unlocked ids.
pub open spec fn lists_drawing(line: Seq<u8>, d: u32) -> bool {
    let ids = id_fields(line);
    listed_among(ids, ids.len() as int, d)
}

/// `r` is what the line at position `level` of the file reads as.
pub open spec fn parsed_from(r: LevelStats, line: Seq<u8>, level: usize) -> bool {
    &&& r.level == level
    &&& match general_of(line) {
        Some(g) => {
            &&& r.time_seconds == g.0
            &&& r.gems_collected == g.1
            &&& r.gems_total == g.2
            &&& forall|d: int|
                0 <= d < 3 ==> #[trigger] r.unlocked_drawings@[d] == lists_drawing(line, d as u32)
        },
        None => r.is_no_progress(),
    }
}

/// Reads the line `s[lo..hi]` as the record of level `level`.
pub fn parse_line_in(s: &[u8], lo: usize, hi: usize, level: usize) -> (r: LevelStats)
    requires
        lo <= hi <= s@.len(),
    ensures
        parsed_from(r, s@.subrange(lo as int, hi as int), level),
{
    let ghost line = s@.subrange(lo as int, hi as int);
    let parts = split_ranges(s, lo, hi, SEMICOLON);
    if parts.len() < 2 {
        return LevelStats::no_progress(level);
    }
    let (glo, ghi) = parts[0];
    let g = split_ranges(s, glo, ghi, COMMA);
    proof {
        assert(s@.subrange(glo as int, ghi as int) == pieces(line, SEMICOLON)[0]);
    }
    if g.len() < 3 {
        return LevelStats::no_progress(level);
    }
    let time = parse_number(s, g[0].0, g[0].1);
    let gems = parse_number(s, g[1].0, g[1].1);
    let total = parse_number(s, g[2].0, g[2].1);
    if time.is_none() || gems.is_none() || total.is_none() {
        return LevelStats::no_progress(level);
    }
    let (ulo, uhi) = parts[1];
    let ids = split_ranges(s, ulo, uhi, COMMA);
    let ghost fields = id_fields(line);
    proof {
        assert(s@.subrange(ulo as int, uhi as int) == pieces(line, SEMICOLON)[1]);
    }
    let mut unlocked = [false; 3];
    let mut k: usize = 0;
    while k < ids.len()
        invariant
            k <= ids@.len() == fields.len(),
            forall|j: int|
                0 <= j < ids@.len() ==> s@.subrange(
                    (#[trigger] ids@[j]).0 as int,
                    ids@[j].1 as int,
                ) == fields[j] && ulo <= ids@[j].0 <= ids@[j].1 <= uhi,
            uhi <= s@.len(),
            forall|d: int|
                0 <= d < 3 ==> #[trigger] unlocked@[d] == listed_among(fields, k as int, d as u32),
        decreases ids@.len() - k,
    {
        let id = parse_number(s, ids[k].0, ids[k].1);
        let ghost before = unlocked;
        match id {
            Some(d) => {
                if d < 3 {
                    unlocked[d as usize] = true;
                }
            },
            None => {},
        }
        proof {
            assert forall|d: int| 0 <= d < 3 implies #[trigger] unlocked@[d] == listed_among(
                fields,
                k as int + 1,
                d as u32,
            ) by {
                if number_of(fields[k as int]) == Some(d as u32) {
                    assert(listed_among(fields, k as int + 1, d as u32));
                } else if listed_among(fields, k as int + 1, d as u32) {
                    let j = choose|j: int|
                        0 <= j < k + 1 && number_of(#[trigger] fields[j]) == Some(d as u32);
                    assert(j < k);
                    assert(listed_among(fields, k as int, d as u32));
                } else {
                    assert(!listed_among(fields, k as int, d as u32)) by {
                        if listed_among(fields, k as int, d as u32) {
                            let j = choose|j: int|
                                0 <= j < k && number_of(#[trigger] fields[j]) == Some(d as u32);
                            assert(0 <= j < k + 1);
                        }
                    }
                }
            }
        }
        k = k + 1;
    }
    LevelStats {
        level,
        time_seconds: time.unwrap(),
        gems_collected: gems.unwrap(),
        gems_total: total.unwrap(),
        unlocked_drawings: unlocked,
    }
}

/// Reads one line as the record of level `level`.
pub fn parse_line(line: &[u8], level: usize) -> (r: LevelStats)
    ensures
        parsed_from(r, line@, level),
{
    proof {
        assert(line@.subrange(0, line@.len() as int) =~= line@);
    }
    parse_line_in(line, 0, line.len(), level)
}

/// `\n`, the end of a line.
pub const NEWLINE: u8 = 0x0a;

/// `\r`, dropped where it stands before a `\n`.
pub const CARRIAGE_RETURN: u8 = 0x0d;

pub open spec fn strip_cr(l: Seq<u8>) -> Seq<u8> {
    if l.len() > 0 && l.last() == CARRIAGE_RETURN {
        l.drop_last()
    } else {
        l
    }
}

/// The lines of a text, as `lines` on a string gives them: split at `\n`, a
/// `\r` before a `\n` dropped, and no line after a final `\n`.
pub open spec fn lines(s: Seq<u8>) -> Seq<Seq<u8>> {
    let p = pieces(s, NEWLINE);
    let body = Seq::new((p.len() - 1) as nat, |k: int| strip_cr(p[k]));
    if p.last().len() == 0 {
        body
    } else {
        body.push(p.last())
    }
}

/// `rs` is what the file `content` reads as: one record per line, in
/// order, the record at position `k` read as level `k`.
pub open spec fn reads_as(rs: Seq<LevelStats>, content: Seq<u8>) -> bool {
    &&& rs.len() == lines(content).len()
    &&& forall|k: int|
        0 <= k < rs.len() ==> parsed_from(#[trigger] rs[k], lines(content)[k], k as usize)
}

/// Reads the whole progress file. An empty file has no records.
pub fn parse_stats(content: &[u8]) -> (r: Vec<LevelStats>)
    ensures
        reads_as(r@, content@),
{
    let ghost text = content@;
    let ranges = split_ranges(content, 0, content.len(), NEWLINE);
    proof {
        assert(text.subrange(0, text.len() as int) =~= text);
        lemma_pieces_nonempty(text, NEWLINE);
    }
    let ghost p = pieces(text, NEWLINE);
    let ghost ls = lines(text);
    let n = ranges.len();
    let mut out: Vec<LevelStats> = Vec::new();
    let mut k: usize = 0;
    while k + 1 < n
        invariant
            text == content@,
            n == ranges@.len() == p.len() >= 1,
            p == pieces(text, NEWLINE),
            ls == lines(text),
            k < n,
            out@.len() == k,
            forall|j: int|
                0 <= j < n ==> {
                    &&& 0 <= (#[trigger] ranges@[j]).0 <= ranges@[j].1 <= text.len()
                    &&& text.subrange(ranges@[j].0 as int, ranges@[j].1 as int) == p[j]
                },
            forall|j: int| 0 <= j < k ==> parsed_from(#[trigger] out@[j], ls[j], j as usize),
        decreases n - k,
    {
        let (a, b) = ranges[k];
        let e = if b > a && content[b - 1] == CARRIAGE_RETURN {
            b - 1
        } else {
            b
        };
        proof {
            assert(text.subrange(a as int, e as int) =~= strip_cr(p[k as int]));
            assert(ls[k as int] == strip_cr(p[k as int]));
        }
        out.push(parse_line_in(content, a, e, k));
        k = k + 1;
    }
    let (a, b) = ranges[n - 1];
    if b > a {
        out.push(parse_line_in(content, a, b, n - 1));
    }
    proof {
        assert(p.last() == p[n - 1]);
    }
    out
}

/// The id fields of the unlocked drawings among the first `n`, in order.
pub open spec fn unlocked_ids(u: Seq<bool>, n: nat) -> Seq<Seq<u8>>
    decreases n,
{
    if n == 0 {
        Seq::empty()
    } else {
        let p = unlocked_ids(u, (n - 1) as nat);
        if u[n - 1] {
            p.push(decimal_text((n - 1) as nat))
        } else {
            p
        }
    }
}

/// The pieces written one after the other with `sep` between them.
pub open spec fn join(ps: Seq<Seq<u8>>, sep: u8) -> Seq<u8>
    decreases ps.len(),
{
    if ps.len() == 0 {
        Seq::empty()
    } else if ps.len() == 1 {
        ps[0]
    } else {
        join(ps.drop_last(), sep) + seq![sep] + ps.last()
    }
}

/// The general fields of a record as a line writes them.
pub open spec fn general_text(r: LevelStats) -> Seq<u8> {
    decimal_text(r.time_seconds as nat) + seq![COMMA] + decimal_text(r.gems_collected as nat)
        + seq![COMMA] + decimal_text(r.gems_total as nat)
}

/// The line that holds a record: `time,gems,gems_total;ids`.
pub open spec fn line_text(r: LevelStats) -> Seq<u8> {
    general_text(r) + seq![SEMICOLON] + join(unlocked_ids(r.unlocked_drawings@, 3), COMMA)
}

/// Writes a record as one line, without its line end.
pub fn format_line(r: &LevelStats) -> (out: Vec<u8>)
    ensures
        out@ == line_text(*r),
{
    let mut out: Vec<u8> = Vec::new();
    push_decimal(&mut out, r.time_seconds);
    out.push(COMMA);
    push_decimal(&mut out, r.gems_collected);
    out.push(COMMA);
    push_decimal(&mut out, r.gems_total);
    out.push(SEMICOLON);
    let ghost head = out@;
    let ghost u = r.unlocked_drawings@;
    proof {
        assert(head =~= general_text(*r) + seq![SEMICOLON]);
        assert(head + join(unlocked_ids(u, 0), COMMA) =~= head);
    }
    let mut d: usize = 0;
    let mut any = false;
    while d < DRAWING_SLOTS
        invariant
            d <= DRAWING_SLOTS,
            any == (unlocked_ids(u, d as nat).len() > 0),
            u == r.unlocked_drawings@,
            out@ == head + join(unlocked_ids(u, d as nat), COMMA),
        decreases DRAWING_SLOTS - d,
    {
        let ghost before = unlocked_ids(u, d as nat);
        if r.unlocked_drawings[d] {
            let ghost pre = out@;
            if any {
                out.push(COMMA);
            }
            push_decimal(&mut out, d as u32);
            any = true;
            proof {
                let after = before.push(decimal_text(d as nat));
                assert(after.drop_last() =~= before);
                if before.len() == 0 {
                    assert(join(before, COMMA) =~= Seq::<u8>::empty());
                    assert(out@ =~= head + join(after, COMMA));
                } else {
                    assert(out@ =~= head + join(after, COMMA));
                }
            }
        }
        d = d + 1;
    }
    out
}

/// A byte that stands in neither of two texts does not stand in both together.
proof fn lemma_concat_free(a: Seq<u8>, b: Seq<u8>, c: u8)
    requires
        !a.contains(c),
        !b.contains(c),
    ensures
        !(a + b).contains(c),
{
    if (a + b).contains(c) {
        let i = choose|i: int| 0 <= i < (a + b).len() && (a + b)[i] == c;
        if i < a.len() {
            assert(a[i] == c);
        } else {
            assert(b[i - a.len()] == c);
        }
    }
}

proof fn lemma_digits_free(s: Seq<u8>, c: u8)
    requires
        all_digits(s),
        !is_digit(c),
    ensures
        !s.contains(c),
{
    if s.contains(c) {
        let i = choose|i: int| 0 <= i < s.len() && s[i] == c;
        assert(is_digit(s[i]));
    }
}

proof fn lemma_decimal_free(v: nat)
    ensures
        !decimal_text(v).contains(COMMA),
        !decimal_text(v).contains(SEMICOLON),
        !decimal_text(v).contains(NEWLINE),
{
    lemma_decimal_text(v);
    lemma_digits_free(decimal_text(v), COMMA);
    lemma_digits_free(decimal_text(v), SEMICOLON);
    lemma_digits_free(decimal_text(v), NEWLINE);
}

proof fn lemma_single_free(a: u8, c: u8)
    requires
        a != c,
    ensures
        !seq![a].contains(c),
{
    if seq![a].contains(c) {
        let i = choose|i: int| 0 <= i < seq![a].len() && seq![a][i] == c;
        assert(seq![a][i] == a);
    }
}

/// Joined pieces that hold no separator split back into the same pieces.
pub proof fn lemma_pieces_join(ps: Seq<Seq<u8>>, sep: u8)
    requires
        ps.len() >= 1,
        forall|k: int| 0 <= k < ps.len() ==> !(#[trigger] ps[k]).contains(sep),
    ensures
        pieces(join(ps, sep), sep) == ps,
    decreases ps.len(),
{
    if ps.len() == 1 {
        lemma_pieces_single(ps[0], sep);
        assert(seq![ps[0]] =~= ps);
    } else {
        let d = ps.drop_last();
        assert forall|k: int| 0 <= k < d.len() implies !(#[trigger] d[k]).contains(sep) by {
            assert(d[k] == ps[k]);
        }
        lemma_pieces_join(d, sep);
        lemma_pieces_concat(join(d, sep), ps.last(), sep);
        lemma_pieces_single(ps.last(), sep);
        assert(d + seq![ps.last()] =~= ps);
    }
}

/// Joined pieces hold no byte that none of them holds, but the separator.
proof fn lemma_join_free(ps: Seq<Seq<u8>>, sep: u8, c: u8)
    requires
        c != sep,
        forall|k: int| 0 <= k < ps.len() ==> !(#[trigger] ps[k]).contains(c),
    ensures
        !join(ps, sep).contains(c),
    decreases ps.len(),
{
    if ps.len() == 0 {
        assert(!Seq::<u8>::empty().contains(c));
    } else if ps.len() > 1 {
        let d = ps.drop_last();
        assert forall|k: int| 0 <= k < d.len() implies !(#[trigger] d[k]).contains(c) by {
            assert(d[k] == ps[k]);
        }
        lemma_join_free(d, sep, c);
        lemma_single_free(sep, c);
        lemma_concat_free(join(d, sep), seq![sep], c);
        assert(!ps[ps.len() - 1].contains(c));
        lemma_concat_free(join(d, sep) + seq![sep], ps.last(), c);
    }
}

/// The id fields written for a record: each is the decimal text of an unlocked
/// drawing, and each unlocked drawing has one.
proof fn lemma_unlocked_ids(u: Seq<bool>, n: nat)
    requires
        n <= u.len(),
        n <= DRAWING_SLOTS,
    ensures
        forall|j: int|
            0 <= j < unlocked_ids(u, n).len() ==> {
                &&& all_digits(#[trigger] unlocked_ids(u, n)[j])
                &&& number_of(unlocked_ids(u, n)[j]) is Some
                &&& number_of(unlocked_ids(u, n)[j])->0 < n
                &&& u[number_of(unlocked_ids(u, n)[j])->0 as int]
            },
        forall|d: int|
            0 <= d < n && #[trigger] u[d] ==> listed_among(
                unlocked_ids(u, n),
                unlocked_ids(u, n).len() as int,
                d as u32,
            ),
    decreases n,
{
    if n > 0 {
        let m = (n - 1) as nat;
        lemma_unlocked_ids(u, m);
        let p = unlocked_ids(u, m);
        let q = unlocked_ids(u, n);
        if u[m as int] {
            lemma_decimal_text(m);
            lemma_number_of_decimal_text(m as u32);
            assert(q[p.len() as int] == decimal_text(m));
            assert forall|j: int| 0 <= j < p.len() implies #[trigger] q[j] == p[j] by {}
            assert forall|d: int| 0 <= d < n && #[trigger] u[d] implies listed_among(
                q,
                q.len() as int,
                d as u32,
            ) by {
                if d == m {
                    assert(number_of(q[p.len() as int]) == Some(d as u32));
                } else {
                    let j = choose|j: int|
                        0 <= j < p.len() && number_of(#[trigger] p[j]) == Some(d as u32);
                    assert(q[j] == p[j]);
                }
            }
        }
    }
}

/// A line reads as a single record.
pub proof fn lemma_parsed_unique(a: LevelStats, b: LevelStats, line: Seq<u8>, level: usize)
    requires
        parsed_from(a, line, level),
        parsed_from(b, line, level),
    ensures
        a == b,
{
    assert(a.unlocked_drawings =~= b.unlocked_drawings);
}

/// Writing a record as a line and reading that line at the record's own
/// position gives the record back.
pub proof fn law_line_round_trip(r: LevelStats)
    ensures
        parsed_from(r, line_text(r), r.level),
{
    let u = r.unlocked_drawings@;
    let t = decimal_text(r.time_seconds as nat);
    let g = decimal_text(r.gems_collected as nat);
    let n = decimal_text(r.gems_total as nat);
    let ids = unlocked_ids(u, 3);
    let line = line_text(r);
    lemma_decimal_free(r.time_seconds as nat);
    lemma_decimal_free(r.gems_collected as nat);
    lemma_decimal_free(r.gems_total as nat);
    lemma_single_free(COMMA, SEMICOLON);
    lemma_concat_free(t, seq![COMMA], SEMICOLON);
    lemma_concat_free(t + seq![COMMA], g, SEMICOLON);
    lemma_concat_free(t + seq![COMMA] + g, seq![COMMA], SEMICOLON);
    lemma_concat_free(t + seq![COMMA] + g + seq![COMMA], n, SEMICOLON);
    lemma_unlocked_ids(u, 3);
    assert forall|k: int| 0 <= k < ids.len() implies !(#[trigger] ids[k]).contains(SEMICOLON)
        && !ids[k].contains(COMMA) by {
        lemma_digits_free(ids[k], SEMICOLON);
        lemma_digits_free(ids[k], COMMA);
    }
    lemma_join_free(ids, COMMA, SEMICOLON);
    let gen = general_text(r);
    let rest = join(ids, COMMA);
    lemma_pieces_concat(gen, rest, SEMICOLON);
    lemma_pieces_single(gen, SEMICOLON);
    lemma_pieces_single(rest, SEMICOLON);
    assert(pieces(line, SEMICOLON) =~= seq![gen, rest]);
    lemma_pieces_concat(t + seq![COMMA] + g, n, COMMA);
    lemma_pieces_concat(t, g, COMMA);
    lemma_pieces_single(t, COMMA);
    lemma_pieces_single(g, COMMA);
    lemma_pieces_single(n, COMMA);
    assert(pieces(gen, COMMA) =~= seq![t, g, n]);
    lemma_number_of_decimal_text(r.time_seconds);
    lemma_number_of_decimal_text(r.gems_collected);
    lemma_number_of_decimal_text(r.gems_total);
    let fields = id_fields(line);
    if ids.len() == 0 {
        assert(rest =~= Seq::<u8>::empty());
        assert(fields =~= seq![Seq::<u8>::empty()]);
        assert forall|d: int| 0 <= d < 3 implies !#[trigger] u[d] by {
            if u[d] {
                let j = choose|j: int|
                    0 <= j < ids.len() && number_of(#[trigger] ids[j]) == Some(d as u32);
            }
        }
        assert forall|d: int| 0 <= d < 3 implies !#[trigger] lists_drawing(line, d as u32) by {
            if lists_drawing(line, d as u32) {
                let j = choose|j: int|
                    0 <= j < fields.len() && number_of(#[trigger] fields[j]) == Some(d as u32);
                assert(fields[j] == Seq::<u8>::empty());
            }
        }
    } else {
        lemma_pieces_join(ids, COMMA);
        assert(fields == ids);
        assert forall|d: int| 0 <= d < 3 implies #[trigger] u[d] == lists_drawing(
            line,
            d as u32,
        ) by {
            if lists_drawing(line, d as u32) {
                let j = choose|j: int|
                    0 <= j < fields.len() && number_of(#[trigger] fields[j]) == Some(d as u32);
                assert(u[number_of(ids[j])->0 as int]);
            }
        }
    }
}

/// Reading a line, writing the record and reading that again gives the same
/// record.
pub proof fn law_reparse_line(line: Seq<u8>, level: usize, first: LevelStats, second: LevelStats)
    requires
        parsed_from(first, line, level),
        parsed_from(second, line_text(first), level),
    ensures
        second == first,
{
    law_line_round_trip(first);
    lemma_parsed_unique(first, second, line_text(first), level);
}

/// A line without `;`, or whose part before its first `;` does not start
/// with three numbers, reads as no progress.
pub proof fn law_damaged_line_is_no_progress(line: Seq<u8>, level: usize, r: LevelStats)
    requires
        parsed_from(r, line, level),
        !line.contains(SEMICOLON) || ({
            let g = pieces(pieces(line, SEMICOLON)[0], COMMA);
            g.len() < 3 || number_of(g[0]) is None || number_of(g[1]) is None || number_of(
                g[2],
            ) is None
        }),
    ensures
        r.level == level,
        r.is_no_progress(),
{
    if !line.contains(SEMICOLON) {
        lemma_pieces_single(line, SEMICOLON);
    }
}

/// The bytes of a written line are digits, commas and one semicolon.
proof fn lemma_line_text_free(r: LevelStats, c: u8)
    requires
        !is_digit(c),
        c != COMMA,
        c != SEMICOLON,
    ensures
        !line_text(r).contains(c),
{
    let t = decimal_text(r.time_seconds as nat);
    let g = decimal_text(r.gems_collected as nat);
    let n = decimal_text(r.gems_total as nat);
    let ids = unlocked_ids(r.unlocked_drawings@, 3);
    lemma_decimal_text(r.time_seconds as nat);
    lemma_decimal_text(r.gems_collected as nat);
    lemma_decimal_text(r.gems_total as nat);
    lemma_digits_free(t, c);
    lemma_digits_free(g, c);
    lemma_digits_free(n, c);
    lemma_single_free(COMMA, c);
    lemma_single_free(SEMICOLON, c);
    lemma_concat_free(t, seq![COMMA], c);
    lemma_concat_free(t + seq![COMMA], g, c);
    lemma_concat_free(t + seq![COMMA] + g, seq![COMMA], c);
    lemma_concat_free(t + seq![COMMA] + g + seq![COMMA], n, c);
    lemma_concat_free(general_text(r), seq![SEMICOLON], c);
    lemma_unlocked_ids(r.unlocked_drawings@, 3);
    assert forall|k: int| 0 <= k < ids.len() implies !(#[trigger] ids[k]).contains(c) by {
        lemma_digits_free(ids[k], c);
    }
    lemma_join_free(ids, COMMA, c);
    lemma_concat_free(general_text(r) + seq![SEMICOLON], join(ids, COMMA), c);
}

/// The progress file that holds the records, one line each.
pub open spec fn stats_text(rs: Seq<LevelStats>) -> Seq<u8> {
    join(rs.map_values(|r: LevelStats| line_text(r)), NEWLINE)
}

/// Writes records as a progress file, one line each, lines parted by `\n`.
pub fn format_stats(records: &[LevelStats]) -> (out: Vec<u8>)
    ensures
        out@ == stats_text(records@),
{
    let mut out: Vec<u8> = Vec::new();
    let mut k: usize = 0;
    while k < records.len()
        invariant
            k <= records@.len(),
            out@ == join(
                records@.subrange(0, k as int).map_values(|r: LevelStats| line_text(r)),
                NEWLINE,
            ),
        decreases records@.len() - k,
    {
        let ghost before = records@.subrange(0, k as int).map_values(|r: LevelStats| line_text(r));
        let ghost after = records@.subrange(0, k as int + 1).map_values(
            |r: LevelStats| line_text(r),
        );
        if k > 0 {
            out.push(NEWLINE);
        }
        let mut line = format_line(&records[k]);
        out.append(&mut line);
        proof {
            assert(after.drop_last() =~= before);
            assert(after.last() == line_text(records@[k as int]));
            if k == 0 {
                assert(out@ =~= join(after, NEWLINE));
            } else {
                assert(out@ =~= join(after, NEWLINE));
            }
        }
        k = k + 1;
    }
    proof {
        assert(records@.subrange(0, records@.len() as int) =~= records@);
    }
    out
}

/// Writing records at their own positions as a progress file and reading the
/// file gives the records back.
pub proof fn law_stats_round_trip(rs: Seq<LevelStats>)
    requires
        forall|k: int| 0 <= k < rs.len() ==> (#[trigger] rs[k]).level == k,
    ensures
        reads_as(rs, stats_text(rs)),
{
    let ls = rs.map_values(|r: LevelStats| line_text(r));
    let text = stats_text(rs);
    if rs.len() == 0 {
        assert(pieces(text, NEWLINE) =~= seq![Seq::<u8>::empty()]);
    } else {
        assert forall|k: int| 0 <= k < ls.len() implies !(#[trigger] ls[k]).contains(
            NEWLINE,
        ) by {
            lemma_line_text_free(rs[k], NEWLINE);
        }
        lemma_pieces_join(ls, NEWLINE);
        assert forall|k: int| 0 <= k < ls.len() implies strip_cr(#[trigger] ls[k]) == ls[k]
            && ls[k].len() > 0 by {
            lemma_line_text_free(rs[k], CARRIAGE_RETURN);
            let l = ls[k];
            assert(l == general_text(rs[k]) + seq![SEMICOLON] + join(
                unlocked_ids(rs[k].unlocked_drawings@, 3),
                COMMA,
            ));
            assert(l[general_text(rs[k]).len() as int] == SEMICOLON);
            if l.len() > 0 && l.last() == CARRIAGE_RETURN {
                assert(l[l.len() - 1] == CARRIAGE_RETURN);
            }
        }
        let body = Seq::new((ls.len() - 1) as nat, |k: int| strip_cr(ls[k]));
        assert(body.push(ls.last()) =~= ls);
        assert forall|k: int| 0 <= k < rs.len() implies parsed_from(
            #[trigger] rs[k],
            lines(text)[k],
            k as usize,
        ) by {
            law_line_round_trip(rs[k]);
        }
    }
}

/// Reading a progress file, writing its records and reading that again gives
/// the same records.
pub proof fn law_reparse_stats(content: Seq<u8>, first: Seq<LevelStats>, second: Seq<LevelStats>)
    requires
        first.len() <= usize::MAX,
        reads_as(first, content),
        reads_as(second, stats_text(first)),
    ensures
        second == first,
{
    assert forall|k: int| 0 <= k < first.len() implies (#[trigger] first[k]).level == k by {}
    law_stats_round_trip(first);
    assert forall|k: int| 0 <= k < first.len() implies #[trigger] second[k] == first[k] by {
        lemma_parsed_unique(first[k], second[k], lines(stats_text(first))[k], k as usize);
    }
    assert(second =~= first);
}

} // verus!
