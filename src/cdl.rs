use vstd::prelude::*;

use crate::stat::Stat;
use crate::table::{counted, has_name, index_of, lookup, name_views, put, table_wf, total_of, CellTable, Entry};

verus! {

/// The line-feed byte, which ends a line.
pub const LF: u8 = 0x0A;

/// Bytes that separate the words of a line: space, tab and carriage return.
pub open spec fn is_blank(b: u8) -> bool {
    b == 0x20 || b == 0x09 || b == 0x0D
}

/// ASCII upper case of a byte; other bytes are left as they are.
pub open spec fn upper(b: u8) -> u8 {
    if 0x61 <= b <= 0x7A {
        (b - 32) as u8
    } else {
        b
    }
}

/// The first index at or after `i` that holds a line feed, or the length of `s`.
pub open spec fn line_end(s: Seq<u8>, i: int) -> int
    decreases s.len() - i,
{
    if 0 <= i < s.len() && s[i] != LF {
        line_end(s, i + 1)
    } else {
        i
    }
}

/// The first index in `[i, e)` that is not blank, or `e`.
pub open spec fn skip_blank(s: Seq<u8>, i: int, e: int) -> int
    decreases e - i,
{
    if 0 <= i < e && i < s.len() && is_blank(s[i]) {
        skip_blank(s, i + 1, e)
    } else {
        i
    }
}

/// The end of the word that starts at `i`: the first blank index in `[i, e)`, or `e`.
pub open spec fn word_end(s: Seq<u8>, i: int, e: int) -> int
    decreases e - i,
{
    if 0 <= i < e && i < s.len() && !is_blank(s[i]) {
        word_end(s, i + 1, e)
    } else {
        i
    }
}

/// The word `s[a..b]` is `.SUBCKT`, in any case.
pub open spec fn is_subckt_word(s: Seq<u8>, a: int, b: int) -> bool {
    &&& b - a == 7
    &&& upper(s[a]) == 0x2E
    &&& upper(s[a + 1]) == 0x53
    &&& upper(s[a + 2]) == 0x55
    &&& upper(s[a + 3]) == 0x42
    &&& upper(s[a + 4]) == 0x43
    &&& upper(s[a + 5]) == 0x4B
    &&& upper(s[a + 6]) == 0x54
}

/// The word `s[a..b]` is `.ENDS`, in any case.
pub open spec fn is_ends_word(s: Seq<u8>, a: int, b: int) -> bool {
    &&& b - a == 5
    &&& upper(s[a]) == 0x2E
    &&& upper(s[a + 1]) == 0x45
    &&& upper(s[a + 2]) == 0x4E
    &&& upper(s[a + 3]) == 0x44
    &&& upper(s[a + 4]) == 0x53
}

/// What a line of a circuit description is, judged by its first word.
#[derive(Clone, Copy, PartialEq, Eq, Structural)]
pub enum LineKind {
    /// `.SUBCKT name ...`: opens a subcircuit definition.
    Open,
    /// `.ENDS name`: closes the subcircuit definition of that name.
    Close,
    /// A word starting with `M`: one primitive transistor element.
    Element,
    /// Anything else: comments, continuations, instances, other elements.
    Other,
}

/// The kind of the line `s[i..e]`.
pub open spec fn line_kind(s: Seq<u8>, i: int, e: int) -> LineKind {
    let a = skip_blank(s, i, e);
    let b = word_end(s, a, e);
    if is_subckt_word(s, a, b) {
        LineKind::Open
    } else if is_ends_word(s, a, b) {
        LineKind::Close
    } else if a < b && upper(s[a]) == 0x4D {
        LineKind::Element
    } else {
        LineKind::Other
    }
}

/// The second word of the line `s[i..e]` (empty when there is none).
pub open spec fn line_name(s: Seq<u8>, i: int, e: int) -> Seq<u8> {
    let a = skip_blank(s, i, e);
    let b = word_end(s, a, e);
    let a2 = skip_blank(s, b, e);
    s.subrange(a2, word_end(s, a2, e))
}

/// Why a circuit description is refused; lines are numbered from one.
#[derive(Debug)]
pub enum CdlError {
    /// A `.SUBCKT` line names no subcircuit.
    MissingName { line: usize },
    /// A `.SUBCKT` line inside another definition.
    NestedSubckt { line: usize },
    /// An `.ENDS` line with no open definition.
    StrayEnds { line: usize },
    /// The definition opened on this line is never closed.
    Unterminated { line: usize },
    /// An `.ENDS` line whose name differs from the name that was opened.
    BoundaryMismatch { line: usize, opened: Vec<u8>, closed: Vec<u8> },
}

/// A `CdlError` as contracts see it.
pub enum CdlFault {
    MissingName { line: int },
    NestedSubckt { line: int },
    StrayEnds { line: int },
    Unterminated { line: int },
    BoundaryMismatch { line: int, opened: Seq<u8>, closed: Seq<u8> },
}

impl View for CdlError {
    type V = CdlFault;

    open spec fn view(&self) -> CdlFault {
        match self {
            CdlError::MissingName { line } => CdlFault::MissingName { line: *line as int },
            CdlError::NestedSubckt { line } => CdlFault::NestedSubckt { line: *line as int },
            CdlError::StrayEnds { line } => CdlFault::StrayEnds { line: *line as int },
            CdlError::Unterminated { line } => CdlFault::Unterminated { line: *line as int },
            CdlError::BoundaryMismatch { line, opened, closed } => CdlFault::BoundaryMismatch {
                line: *line as int,
                opened: opened@,
                closed: closed@,
            },
        }
    }
}

/// One subcircuit definition: its name and the primitive transistor elements
/// that its body holds directly.
#[derive(Debug)]
pub struct SubcktDef {
    pub name: Vec<u8>,
    pub elements: i64,
}

impl View for SubcktDef {
    type V = (Seq<u8>, i64);

    open spec fn view(&self) -> (Seq<u8>, i64) {
        (self.name@, self.elements)
    }
}

/// An open definition while a description is read: name, elements so far and
/// the line that opened it.
pub type OpenDef = (Seq<u8>, int, int);

proof fn lemma_line_end_bounds(s: Seq<u8>, i: int)
    requires
        0 <= i,
    ensures
        i <= line_end(s, i),
        i <= s.len() ==> line_end(s, i) <= s.len(),
    decreases s.len() - i,
{
    if 0 <= i < s.len() && s[i] != LF {
        lemma_line_end_bounds(s, i + 1);
    }
}

#[via_fn]
proof fn parse_from_decreases(
    s: Seq<u8>,
    i: int,
    line: int,
    open: Option<OpenDef>,
    defs: Seq<(Seq<u8>, i64)>,
) {
    if 0 <= i < s.len() {
        lemma_line_end_bounds(s, i);
    }
}

/// The definitions of a circuit description read from byte `i` on, the line
/// there being numbered `line`, with `open` the definition not yet closed and
/// `defs` those already read. Lines are cut at line feeds; each line is judged
/// by `line_kind`.
pub open spec fn parse_from(
    s: Seq<u8>,
    i: int,
    line: int,
    open: Option<OpenDef>,
    defs: Seq<(Seq<u8>, i64)>,
) -> Result<Seq<(Seq<u8>, i64)>, CdlFault>
    decreases s.len() + 1 - i,
    via parse_from_decreases
{
    if i < 0 || i >= s.len() {
        match open {
            Some(o) => Err(CdlFault::Unterminated { line: o.2 }),
            None => Ok(defs),
        }
    } else {
        let e = line_end(s, i);
        let name = line_name(s, i, e);
        match line_kind(s, i, e) {
            LineKind::Open => if open is Some {
                Err(CdlFault::NestedSubckt { line })
            } else if name.len() == 0 {
                Err(CdlFault::MissingName { line })
            } else {
                parse_from(s, e + 1, line + 1, Some((name, 0int, line)), defs)
            },
            LineKind::Close => match open {
                None => Err(CdlFault::StrayEnds { line }),
                Some(o) => if name != o.0 {
                    Err(CdlFault::BoundaryMismatch { line, opened: o.0, closed: name })
                } else {
                    parse_from(s, e + 1, line + 1, None, defs.push((o.0, o.1 as i64)))
                },
            },
            LineKind::Element => parse_from(
                s,
                e + 1,
                line + 1,
                match open {
                    Some(o) => Some((o.0, o.1 + 1, o.2)),
                    None => None,
                },
                defs,
            ),
            LineKind::Other => parse_from(s, e + 1, line + 1, open, defs),
        }
    }
}

/// The subcircuit definitions of a whole circuit description, in order.
pub open spec fn cdl_defs(s: Seq<u8>) -> Result<Seq<(Seq<u8>, i64)>, CdlFault> {
    parse_from(s, 0, 1, None, Seq::empty())
}

/// The table built from definitions: each name with its element count and no
/// instantiations; a later definition of a name replaces an earlier one.
pub open spec fn table_of(defs: Seq<(Seq<u8>, i64)>) -> Seq<Entry>
    decreases defs.len(),
{
    if defs.len() == 0 {
        Seq::empty()
    } else {
        put(
            table_of(defs.drop_last()),
            defs.last().0,
            Stat { transistors: defs.last().1, count: 0 },
        )
    }
}

/// The parser of circuit descriptions.
pub struct CDLParser;

/// Definitions as contracts see them.
pub open spec fn defs_view(defs: Seq<SubcktDef>) -> Seq<(Seq<u8>, i64)> {
    defs.map_values(|d: SubcktDef| d@)
}

/// The open definition as contracts see it.
pub open spec fn open_view(open: Option<(Vec<u8>, i64, usize)>) -> Option<OpenDef> {
    match open {
        Some(o) => Some((o.0@, o.1 as int, o.2 as int)),
        None => None,
    }
}

fn upper_byte(b: u8) -> (r: u8)
    ensures
        r == upper(b),
{
    if 0x61 <= b && b <= 0x7A {
        b - 32
    } else {
        b
    }
}

fn find_line_end(s: &[u8], i: usize) -> (e: usize)
    requires
        i <= s@.len(),
    ensures
        e == line_end(s@, i as int),
        i <= e <= s@.len(),
{
    let mut j = i;
    while j < s.len() && s[j] != LF
        invariant
            i <= j <= s@.len(),
            line_end(s@, i as int) == line_end(s@, j as int),
        decreases s.len() - j,
    {
        j = j + 1;
    }
    j
}

fn skip_blanks(s: &[u8], i: usize, e: usize) -> (r: usize)
    requires
        i <= e <= s@.len(),
    ensures
        r == skip_blank(s@, i as int, e as int),
        i <= r <= e,
{
    let mut j = i;
    while j < e && (s[j] == 0x20 || s[j] == 0x09 || s[j] == 0x0D)
        invariant
            i <= j <= e,
            e <= s@.len(),
            skip_blank(s@, i as int, e as int) == skip_blank(s@, j as int, e as int),
        decreases e - j,
    {
        j = j + 1;
    }
    j
}

fn end_of_word(s: &[u8], i: usize, e: usize) -> (r: usize)
    requires
        i <= e <= s@.len(),
    ensures
        r == word_end(s@, i as int, e as int),
        i <= r <= e,
{
    let mut j = i;
    while j < e && !(s[j] == 0x20 || s[j] == 0x09 || s[j] == 0x0D)
        invariant
            i <= j <= e,
            e <= s@.len(),
            word_end(s@, i as int, e as int) == word_end(s@, j as int, e as int),
        decreases e - j,
    {
        j = j + 1;
    }
    j
}

/// Judges the line `s[i..e]`; also gives the bounds of its second word.
fn classify(s: &[u8], i: usize, e: usize) -> (r: (LineKind, usize, usize))
    requires
        i <= e <= s@.len(),
    ensures
        r.0 == line_kind(s@, i as int, e as int),
        r.1 <= r.2 <= e,
        s@.subrange(r.1 as int, r.2 as int) == line_name(s@, i as int, e as int),
{
    let a = skip_blanks(s, i, e);
    let b = end_of_word(s, a, e);
    let a2 = skip_blanks(s, b, e);
    let b2 = end_of_word(s, a2, e);
    let kind = if b - a == 7 && upper_byte(s[a]) == 0x2E && upper_byte(s[a + 1]) == 0x53
        && upper_byte(s[a + 2]) == 0x55 && upper_byte(s[a + 3]) == 0x42 && upper_byte(s[a + 4])
        == 0x43 && upper_byte(s[a + 5]) == 0x4B && upper_byte(s[a + 6]) == 0x54 {
        LineKind::Open
    } else if b - a == 5 && upper_byte(s[a]) == 0x2E && upper_byte(s[a + 1]) == 0x45
        && upper_byte(s[a + 2]) == 0x4E && upper_byte(s[a + 3]) == 0x44 && upper_byte(s[a + 4])
        == 0x53 {
        LineKind::Close
    } else if a < b && upper_byte(s[a]) == 0x4D {
        LineKind::Element
    } else {
        LineKind::Other
    };
    (kind, a2, b2)
}

fn copy_bytes(s: &[u8], a: usize, b: usize) -> (r: Vec<u8>)
    requires
        a <= b <= s@.len(),
    ensures
        r@ == s@.subrange(a as int, b as int),
{
    let mut r: Vec<u8> = Vec::new();
    let mut j = a;
    while j < b
        invariant
            a <= j <= b,
            b <= s@.len(),
            r@ == s@.subrange(a as int, j as int),
        decreases b - j,
    {
        r.push(s[j]);
        j = j + 1;
        assert(r@ =~= s@.subrange(a as int, j as int));
    }
    r
}

impl CDLParser {
    /// Reads the subcircuit definitions of a circuit description, in order.
    pub fn parse(s: &[u8]) -> (r: Result<Vec<SubcktDef>, CdlError>)
        requires
            s@.len() <= i64::MAX,
            s@.len() < usize::MAX,
        ensures
            match cdl_defs(s@) {
                Ok(d) => r is Ok && defs_view(r->Ok_0@) == d && forall|k: int|
                    0 <= k < d.len() ==> #[trigger] d[k].1 >= 0,
                Err(f) => r is Err && r->Err_0@ == f,
            },
    {
        let mut i: usize = 0;
        let mut line: usize = 1;
        let mut open: Option<(Vec<u8>, i64, usize)> = None;
        let mut defs: Vec<SubcktDef> = Vec::new();
        assert(defs_view(defs@) =~= Seq::<(Seq<u8>, i64)>::empty());
        while i < s.len()
            invariant
                s@.len() <= i64::MAX,
                s@.len() < usize::MAX,
                i <= s@.len() + 1,
                1 <= line <= i + 1,
                cdl_defs(s@) == parse_from(s@, i as int, line as int, open_view(open), defs_view(defs@)),
                match open {
                    Some(o) => 0 <= o.1 <= i,
                    None => true,
                },
                forall|k: int| 0 <= k < defs@.len() ==> #[trigger] defs@[k].elements >= 0,
            decreases s@.len() + 1 - i,
        {
            let e = find_line_end(s, i);
            let (kind, a2, b2) = classify(s, i, e);
            let ghost name = line_name(s@, i as int, e as int);
            match kind {
                LineKind::Open => {
                    if open.is_some() {
                        return Err(CdlError::NestedSubckt { line });
                    }
                    if a2 == b2 {
                        return Err(CdlError::MissingName { line });
                    }
                    open = Some((copy_bytes(s, a2, b2), 0, line));
                },
                LineKind::Close => {
                    match open {
                        None => {
                            return Err(CdlError::StrayEnds { line });
                        },
                        Some(o) => {
                            let closed = copy_bytes(s, a2, b2);
                            if !crate::table::bytes_eq(o.0.as_slice(), closed.as_slice()) {
                                return Err(
                                    CdlError::BoundaryMismatch { line, opened: o.0, closed },
                                );
                            }
                            let ghost before = defs_view(defs@);
                            defs.push(SubcktDef { name: o.0, elements: o.1 });
                            assert(defs_view(defs@) =~= before.push((o.0@, o.1)));
                            open = None;
                        },
                    }
                },
                LineKind::Element => {
                    match open {
                        Some(o) => {
                            open = Some((o.0, o.1 + 1, o.2));
                        },
                        None => {},
                    }
                },
                LineKind::Other => {},
            }
            i = e + 1;
            line = line + 1;
        }
        match open {
            Some(o) => Err(CdlError::Unterminated { line: o.2 }),
            None => {
                assert(forall|k: int|
                    0 <= k < defs@.len() ==> #[trigger] defs_view(defs@)[k] == defs@[k]@);
                Ok(defs)
            },
        }
    }
}

/// Builds the table of a circuit description: one entry per subcircuit name,
/// holding the primitive elements of its last definition and no
/// instantiations. A malformed description is refused with the fault that
/// `cdl_defs` gives; in particular an `.ENDS` line that names another
/// subcircuit than the open one aborts the build.
pub fn cdl_parse(input: &[u8]) -> (r: Result<CellTable, CdlError>)
    requires
        input@.len() <= i64::MAX,
        input@.len() < usize::MAX,
    ensures
        match cdl_defs(input@) {
            Ok(d) => r is Ok && r->Ok_0@ == table_of(d) && r->Ok_0.wf() && forall|k: int|
                0 <= k < d.len() ==> #[trigger] d[k].1 >= 0,
            Err(f) => r is Err && r->Err_0@ == f,
        },
{
    let defs = match CDLParser::parse(input) {
        Ok(d) => d,
        Err(e) => {
            return Err(e);
        },
    };
    let ghost d = defs_view(defs@);
    let mut table = CellTable::new();
    let n = defs.len();
    let mut i: usize = 0;
    assert(d.take(0) =~= Seq::<(Seq<u8>, i64)>::empty());
    while i < n
        invariant
            n == d.len(),
            d == defs_view(defs@),
            i <= n,
            forall|k: int| 0 <= k < d.len() ==> #[trigger] d[k].1 >= 0,
            table.wf(),
            table@ == table_of(d.take(i as int)),
        decreases n - i,
    {
        let def = &defs[i];
        assert(def@ == d[i as int]);
        assert(d[i as int].1 >= 0);
        assert(d.take(i + 1).drop_last() =~= d.take(i as int));
        let name = copy_bytes(def.name.as_slice(), 0, def.name.len());
        assert(name@ =~= def.name@);
        table.insert(name, Stat::new(def.elements, 0));
        i = i + 1;
    }
    assert(d.take(n as int) =~= d);
    Ok(table)
}

/// Building a table from definitions gives one entry per distinct name, so no
/// more entries than definitions; every entry starts with no instantiations,
/// and the entry of a name holds the element count of the last definition of
/// that name.
pub proof fn lemma_table_of_defs(defs: Seq<(Seq<u8>, i64)>)
    requires
        forall|k: int| 0 <= k < defs.len() ==> #[trigger] defs[k].1 >= 0,
    ensures
        table_wf(table_of(defs)),
        table_of(defs).len() <= defs.len(),
        forall|k: int| 0 <= k < table_of(defs).len() ==> #[trigger] table_of(defs)[k].1.count == 0,
        forall|name: Seq<u8>|
            has_name(table_of(defs), name) <==> exists|k: int|
                0 <= k < defs.len() && #[trigger] defs[k].0 == name,
        forall|k: int|
            0 <= k < defs.len() && (forall|l: int| k < l < defs.len() ==> defs[l].0 != defs[k].0)
                ==> #[trigger] lookup(table_of(defs), defs[k].0) == Some(st_of(defs[k])),
    decreases defs.len(),
{
    if defs.len() > 0 {
        let w = defs.drop_last();
        lemma_table_of_defs(w);
        let t = table_of(w);
        let name = defs.last().0;
        let st = Stat { transistors: defs.last().1, count: 0 };
        let r = table_of(defs);
        assert(r == put(t, name, st));
        let last = defs.len() - 1;
        assert(defs[last].0 == name);
        if has_name(t, name) {
            let j = index_of(t, name);
            assert(t[j].0 == name);
            assert(r == t.update(j, (name, st)));
            assert forall|x: Seq<u8>| has_name(r, x) == has_name(t, x) by {
                if has_name(t, x) {
                    let m = index_of(t, x);
                    assert(r[m].0 == x);
                }
                if has_name(r, x) {
                    let m = index_of(r, x);
                    assert(t[m].0 == x);
                }
            }
            assert forall|x: Seq<u8>| x != name && has_name(t, x) implies lookup(r, x) == lookup(t, x) by {
                let m = index_of(t, x);
                let m2 = index_of(r, x);
                assert(r[m2].0 == x);
                assert(t[m2].0 == x);
            }
        } else {
            assert(r == t.push((name, st)));
            assert forall|x: Seq<u8>| has_name(r, x) == (has_name(t, x) || x == name) by {
                if has_name(t, x) {
                    let m = index_of(t, x);
                    assert(r[m].0 == x);
                }
                if x == name {
                    assert(r[t.len() as int].0 == x);
                }
                if has_name(r, x) && x != name {
                    let m = index_of(r, x);
                    assert(t[m].0 == x);
                }
            }
            assert forall|x: Seq<u8>| x != name && has_name(t, x) implies lookup(r, x) == lookup(t, x) by {
                let m = index_of(t, x);
                let m2 = index_of(r, x);
                assert(r[m].0 == x);
                assert(t[m].0 == x);
            }
        }
        assert(has_name(r, name));
        let jn = index_of(r, name);
        assert(r[jn].0 == name);
        assert forall|x: Seq<u8>| has_name(r, x) <==> exists|k: int| 0 <= k < defs.len() && #[trigger] defs[k].0 == x by {
            if exists|k: int| 0 <= k < defs.len() && #[trigger] defs[k].0 == x {
                let k = choose|k: int| 0 <= k < defs.len() && #[trigger] defs[k].0 == x;
                if k < last {
                    assert(w[k].0 == x);
                }
            }
            if has_name(t, x) {
                let k = choose|k: int| 0 <= k < w.len() && #[trigger] w[k].0 == x;
                assert(defs[k].0 == x);
            }
        }
        assert forall|k: int|
            0 <= k < defs.len() && (forall|l: int| k < l < defs.len() ==> defs[l].0 != defs[k].0)
                implies #[trigger] lookup(r, defs[k].0) == Some(st_of(defs[k])) by {
            if k < last {
                assert(defs[last].0 != defs[k].0);
                assert(w[k] == defs[k]);
                assert(forall|l: int| k < l < w.len() ==> w[l] == defs[l]);
                assert(lookup(t, w[k].0) == Some(st_of(w[k])));
                assert(has_name(t, defs[k].0)) by {
                    assert(exists|l: int| 0 <= l < w.len() && #[trigger] w[l].0 == defs[k].0) by {
                        assert(w[k].0 == defs[k].0);
                    }
                }
            }
        }
    }
}

/// The entry that a definition asks for.
pub open spec fn st_of(d: (Seq<u8>, i64)) -> Stat {
    Stat { transistors: d.1, count: 0 }
}

/// The aggregate transistor count of a design: the table of the circuit
/// description `cdl`, counted against the instantiation names of a structural
/// netlist (`None` for a name that could not be resolved), then totalled.
/// `Ok(None)` when the total does not fit in an `i64`.
pub fn transistor_total(cdl: &[u8], names: &[Option<Vec<u8>>]) -> (r: Result<Option<i64>, CdlError>)
    requires
        cdl@.len() <= i64::MAX,
        cdl@.len() < usize::MAX,
        names@.len() <= i64::MAX,
    ensures
        match cdl_defs(cdl@) {
            Ok(d) => {
                let t = total_of(counted(table_of(d), name_views(names@)));
                r == Ok::<Option<i64>, CdlError>(
                    if t <= i64::MAX { Some(t as i64) } else { None },
                )
            },
            Err(f) => r is Err && r->Err_0@ == f,
        },
{
    let mut table = match cdl_parse(cdl) {
        Ok(t) => t,
        Err(e) => {
            return Err(e);
        },
    };
    proof {
        let d = cdl_defs(cdl@)->Ok_0;
        lemma_table_of_defs(d);
    }
    table.count_instances(names);
    Ok(table.total())
}

} // verus!
