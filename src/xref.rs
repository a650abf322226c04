use vstd::prelude::*;

use crate::boolean::{bytes_at, matches_at};
use crate::error::{PdfError, PdfErrorKind};
use crate::numeric::{all_digits, digits_u64, digits_value};
use crate::object::{is_uint_token, uint_token};

use vstd::string::StringSliceAdditionalSpecFns;

verus! {

/// One entry of a cross-reference table: a byte offset, a generation number, and whether
/// the object number is free.
#[derive(Clone, Copy, Debug, PartialEq, Eq)]
pub struct PdfCrossRefTableEntry {
    offset: u64,
    gen_number: u16,
    free: bool,
}

/// The line that opens a subsection: the first object number and the number of entries.
#[derive(Clone, Copy, Debug, PartialEq, Eq)]
pub struct PdfCrossRefTableSubsectionHeader {
    first_object: usize,
    len: usize,
}

/// A subsection: its header and its entries.
#[derive(Clone, Debug, PartialEq)]
pub struct PdfCrossRefTableSubsection {
    header: PdfCrossRefTableSubsectionHeader,
    entries: Vec<PdfCrossRefTableEntry>,
}

/// A section: the subsections after one `xref` keyword.
#[derive(Clone, Debug, PartialEq)]
pub struct PdfCrossRefTableSection {
    subsections: Vec<PdfCrossRefTableSubsection>,
}

/// A cross-reference table: its sections in order.
#[derive(Clone, Debug, PartialEq)]
pub struct PdfCrossRefTable {
    sections: Vec<PdfCrossRefTableSection>,
}

/// (offset, generation, free)
pub type EntryModel = (u64, u16, bool);

/// ((first object, count), entries)
pub type SubsectionModel = ((usize, usize), Seq<EntryModel>);

pub type SectionModel = Seq<SubsectionModel>;

impl View for PdfCrossRefTableEntry {
    type V = EntryModel;

    closed spec fn view(&self) -> EntryModel {
        (self.offset, self.gen_number, self.free)
    }
}

impl View for PdfCrossRefTableSubsectionHeader {
    type V = (usize, usize);

    closed spec fn view(&self) -> (usize, usize) {
        (self.first_object, self.len)
    }
}

pub closed spec fn entries_model(v: Seq<PdfCrossRefTableEntry>) -> Seq<EntryModel> {
    Seq::new(v.len(), |k: int| v[k]@)
}

impl View for PdfCrossRefTableSubsection {
    type V = SubsectionModel;

    closed spec fn view(&self) -> SubsectionModel {
        (self.header@, entries_model(self.entries@))
    }
}

pub closed spec fn subsections_model(v: Seq<PdfCrossRefTableSubsection>) -> SectionModel {
    Seq::new(v.len(), |k: int| v[k]@)
}

impl View for PdfCrossRefTableSection {
    type V = SectionModel;

    closed spec fn view(&self) -> SectionModel {
        subsections_model(self.subsections@)
    }
}

pub closed spec fn sections_model(v: Seq<PdfCrossRefTableSection>) -> Seq<SectionModel> {
    Seq::new(v.len(), |k: int| v[k]@)
}

impl View for PdfCrossRefTable {
    type V = Seq<SectionModel>;

    closed spec fn view(&self) -> Seq<SectionModel> {
        sections_model(self.sections@)
    }
}

/// An entry line: ten digits, a space, five digits (at most 65535), a space, `f` or `n`.
pub open spec fn spec_parse_entry(t: Seq<u8>) -> Result<EntryModel, PdfErrorKind> {
    if t.len() == 18 && all_digits(t.subrange(0, 10)) && digits_value(t.subrange(0, 10)) <= u64::MAX
        && t[10] == 0x20 && all_digits(t.subrange(11, 16)) && digits_value(t.subrange(11, 16))
        <= 65535 && t[16] == 0x20 && (t[17] == 0x66 || t[17] == 0x6e) {
        Ok(
            (
                digits_value(t.subrange(0, 10)) as u64,
                digits_value(t.subrange(11, 16)) as u16,
                t[17] == 0x66,
            ),
        )
    } else {
        Err(PdfErrorKind::Parse)
    }
}

/// The first position at or after `i` that holds `c`, or the length.
pub open spec fn find_byte(s: Seq<u8>, i: int, c: u8) -> int
    decreases s.len() - i,
{
    if 0 <= i < s.len() && s[i] != c {
        find_byte(s, i + 1, c)
    } else {
        i
    }
}

pub proof fn lemma_find_byte(s: Seq<u8>, i: int, c: u8)
    requires
        0 <= i <= s.len(),
    ensures
        i <= find_byte(s, i, c) <= s.len(),
        find_byte(s, i, c) < s.len() ==> s[find_byte(s, i, c)] == c,
        forall|q: int| i <= q < find_byte(s, i, c) ==> #[trigger] s[q] != c,
    decreases s.len() - i,
{
    if i < s.len() && s[i] != c {
        lemma_find_byte(s, i + 1, c);
    }
}

/// A subsection header line: two decimal numbers separated by one space.
pub open spec fn spec_parse_subsection_header(t: Seq<u8>) -> Result<(usize, usize), PdfErrorKind> {
    let sp = find_byte(t, 0, 0x20);
    if sp < t.len() && is_uint_token(t.subrange(0, sp)) && is_uint_token(
        t.subrange(sp + 1, t.len() as int),
    ) {
        Ok(
            (
                digits_value(t.subrange(0, sp)) as usize,
                digits_value(t.subrange(sp + 1, t.len() as int)) as usize,
            ),
        )
    } else {
        Err(PdfErrorKind::Parse)
    }
}

/// The line that starts at `i`, without its line end (`\n` or `\r\n`).
pub open spec fn line_at(s: Seq<u8>, i: int) -> Seq<u8> {
    let e = find_byte(s, i, 0x0a);
    let l = s.subrange(i, e);
    if e < s.len() && l.len() > 0 && l.last() == 0x0d {
        l.drop_last()
    } else {
        l
    }
}

/// Where the line after the one at `i` starts.
pub open spec fn next_line(s: Seq<u8>, i: int) -> int {
    let e = find_byte(s, i, 0x0a);
    if e < s.len() {
        e + 1
    } else {
        e
    }
}

/// Adds the open subsection `cur`, if any, to `done`; it must have as many entries as
/// its header announces.
pub open spec fn close_subsection(done: SectionModel, cur: Option<SubsectionModel>) -> Result<
    SectionModel,
    PdfErrorKind,
> {
    match cur {
        None => Ok(done),
        Some(c) => if c.1.len() == c.0.1 {
            Ok(done.push(c))
        } else {
            Err(PdfErrorKind::Parse)
        },
    }
}

/// The lines of a section from `i` on: subsection headers, each followed by its entries.
pub open spec fn section_lines(s: Seq<u8>, i: int, done: SectionModel, cur: Option<SubsectionModel>) -> Result<
    SectionModel,
    PdfErrorKind,
>
    decreases s.len() - i,
{
    if i < 0 || i >= s.len() {
        close_subsection(done, cur)
    } else {
        let line = line_at(s, i);
        let j = next_line(s, i);
        proof {
            lemma_find_byte(s, i, 0x0a);
        }
        match spec_parse_subsection_header(line) {
            Ok(h) => match close_subsection(done, cur) {
                Ok(d) => section_lines(s, j, d, Some((h, Seq::empty()))),
                Err(err) => Err(err),
            },
            Err(_) => match cur {
                None => Err(PdfErrorKind::Parse),
                Some(c) => match spec_parse_entry(line) {
                    Ok(en) => section_lines(s, j, done, Some((c.0, c.1.push(en)))),
                    Err(_) => Err(PdfErrorKind::Parse),
                },
            },
        }
    }
}

pub open spec fn xref_keyword() -> Seq<u8> {
    seq![0x78u8, 0x72, 0x65, 0x66]
}

/// A section: the line `xref`, then its subsections.
pub open spec fn spec_parse_section(s: Seq<u8>) -> Result<SectionModel, PdfErrorKind> {
    if line_at(s, 0) == xref_keyword() {
        section_lines(s, next_line(s, 0), Seq::empty(), None)
    } else {
        Err(PdfErrorKind::Parse)
    }
}

/// The first position at or after `i` where the keyword `xref` stands, or -1.
pub open spec fn find_keyword(s: Seq<u8>, i: int) -> int
    decreases s.len() - i,
{
    if i < 0 || i + 4 > s.len() {
        -1
    } else if matches_at(s, i, xref_keyword()) {
        i
    } else {
        find_keyword(s, i + 1)
    }
}

pub proof fn lemma_find_keyword(s: Seq<u8>, i: int)
    requires
        0 <= i,
    ensures
        find_keyword(s, i) == -1 || (i <= find_keyword(s, i) && find_keyword(s, i) + 4 <= s.len()),
    decreases s.len() - i,
{
    if i + 4 <= s.len() && !matches_at(s, i, xref_keyword()) {
        lemma_find_keyword(s, i + 1);
    }
}

/// The sections from the keyword at `i` on: each runs up to the next keyword.
pub open spec fn table_sections(s: Seq<u8>, i: int, acc: Seq<SectionModel>) -> Result<
    Seq<SectionModel>,
    PdfErrorKind,
>
    decreases s.len() - i,
{
    if i < 0 || i >= s.len() {
        Ok(acc)
    } else {
        let nx = find_keyword(s, i + 4);
        proof {
            lemma_find_keyword(s, i + 4);
        }
        let end = if nx < 0 {
            s.len() as int
        } else {
            nx
        };
        match spec_parse_section(s.subrange(i, end)) {
            Err(err) => Err(err),
            Ok(sec) => if nx < 0 {
                Ok(acc.push(sec))
            } else {
                table_sections(s, nx, acc.push(sec))
            },
        }
    }
}

/// A table: whatever precedes the first `xref` is skipped, then one section per keyword.
pub open spec fn spec_parse_table(s: Seq<u8>) -> Result<Seq<SectionModel>, PdfErrorKind> {
    let f = find_keyword(s, 0);
    if f < 0 {
        Ok(Seq::empty())
    } else {
        table_sections(s, f, Seq::empty())
    }
}

impl PdfCrossRefTableEntry {
    pub fn new(offset: u64, gen_number: u16, free: bool) -> (r: Self)
        ensures
            r@ == (offset, gen_number, free),
    {
        PdfCrossRefTableEntry { offset, gen_number, free }
    }

    pub fn offset(&self) -> (r: u64)
        ensures
            r == self@.0,
    {
        self.offset
    }

    pub fn gen_number(&self) -> (r: u16)
        ensures
            r == self@.1,
    {
        self.gen_number
    }

    pub fn is_free(&self) -> (r: bool)
        ensures
            r == self@.2,
    {
        self.free
    }

    /// Reads an entry line (without its line end).
    pub fn parse_line(t: &[u8]) -> (r: Result<PdfCrossRefTableEntry, PdfError>)
        ensures
            match r {
                Ok(e) => spec_parse_entry(t@) == Ok::<EntryModel, PdfErrorKind>(e@),
                Err(err) => spec_parse_entry(t@) == Err::<EntryModel, PdfErrorKind>(err.kind),
            },
    {
        if t.len() != 18 || t[10] != 0x20 || t[16] != 0x20 || !(t[17] == 0x66 || t[17] == 0x6e) {
            return Err(PdfError::parse_error());
        }
        let offset = match digits_u64(vstd::slice::slice_subrange(t, 0, 10)) {
            Some(v) => v,
            None => {
                return Err(PdfError::parse_error());
            },
        };
        let gen = match digits_u64(vstd::slice::slice_subrange(t, 11, 16)) {
            Some(v) => v,
            None => {
                return Err(PdfError::parse_error());
            },
        };
        if gen > 65535 {
            return Err(PdfError::parse_error());
        }
        Ok(PdfCrossRefTableEntry { offset, gen_number: gen as u16, free: t[17] == 0x66 })
    }
}

impl PdfCrossRefTableSubsectionHeader {
    pub fn new(first_object: usize, len: usize) -> (r: Self)
        ensures
            r@ == (first_object, len),
    {
        PdfCrossRefTableSubsectionHeader { first_object, len }
    }

    pub fn first_object(&self) -> (r: usize)
        ensures
            r == self@.0,
    {
        self.first_object
    }

    pub fn len(&self) -> (r: usize)
        ensures
            r == self@.1,
    {
        self.len
    }

    /// Reads a subsection header line (without its line end).
    pub fn parse_line(t: &[u8]) -> (r: Result<PdfCrossRefTableSubsectionHeader, PdfError>)
        ensures
            match r {
                Ok(h) => spec_parse_subsection_header(t@) == Ok::<(usize, usize), PdfErrorKind>(h@),
                Err(err) => spec_parse_subsection_header(t@) == Err::<(usize, usize), PdfErrorKind>(err.kind),
            },
    {
        let n = t.len();
        let mut sp: usize = 0;
        while sp < n && t[sp] != 0x20
            invariant
                0 <= sp <= n,
                n == t@.len(),
                find_byte(t@, sp as int, 0x20) == find_byte(t@, 0, 0x20),
            decreases n - sp,
        {
            sp = sp + 1;
        }
        if sp >= n {
            return Err(PdfError::parse_error());
        }
        let first = match uint_token(vstd::slice::slice_subrange(t, 0, sp)) {
            Some(v) => v,
            None => {
                return Err(PdfError::parse_error());
            },
        };
        let len = match uint_token(vstd::slice::slice_subrange(t, sp + 1, n)) {
            Some(v) => v,
            None => {
                return Err(PdfError::parse_error());
            },
        };
        Ok(PdfCrossRefTableSubsectionHeader { first_object: first, len })
    }
}

impl PdfCrossRefTableSubsection {
    pub fn new(header: PdfCrossRefTableSubsectionHeader, entries: Vec<PdfCrossRefTableEntry>) -> (r: Self)
        ensures
            r@ == (header@, entries_model(entries@)),
    {
        PdfCrossRefTableSubsection { header, entries }
    }

    pub fn header(&self) -> (r: PdfCrossRefTableSubsectionHeader)
        ensures
            r@ == self@.0,
    {
        self.header
    }

    pub fn entries(&self) -> (r: &[PdfCrossRefTableEntry])
        ensures
            entries_model(r@) == self@.1,
    {
        self.entries.as_slice()
    }
}

pub open spec fn opt_subsection_view(c: Option<PdfCrossRefTableSubsection>) -> Option<SubsectionModel> {
    match c {
        Some(x) => Some(x@),
        None => None,
    }
}

/// Where the line starting at `i` ends (before `\r\n` or `\n`), and where the next starts.
fn line_bounds(b: &[u8], i: usize) -> (r: (usize, usize))
    requires
        i < b@.len(),
    ensures
        i <= r.0 <= b@.len(),
        b@.subrange(i as int, r.0 as int) == line_at(b@, i as int),
        r.1 == next_line(b@, i as int),
        i < r.1 <= b@.len(),
{
    let n = b.len();
    let mut e: usize = i;
    while e < n && b[e] != 0x0a
        invariant
            i <= e <= n,
            n == b@.len(),
            find_byte(b@, e as int, 0x0a) == find_byte(b@, i as int, 0x0a),
        decreases n - e,
    {
        e = e + 1;
    }
    let next = if e < n {
        e + 1
    } else {
        e
    };
    if e < n && e > i && b[e - 1] == 0x0d {
        assert(b@.subrange(i as int, e as int).drop_last() =~= b@.subrange(i as int, e - 1));
        (e - 1, next)
    } else {
        (e, next)
    }
}

impl PdfCrossRefTableSection {
    pub fn new(subsections: Vec<PdfCrossRefTableSubsection>) -> (r: Self)
        ensures
            r@ == subsections_model(subsections@),
    {
        PdfCrossRefTableSection { subsections }
    }

    pub fn subsections(&self) -> (r: &[PdfCrossRefTableSubsection])
        ensures
            subsections_model(r@) == self@,
    {
        self.subsections.as_slice()
    }

    /// Reads a section from the whole of `b`.
    pub fn parse_bytes(b: &[u8]) -> (r: Result<PdfCrossRefTableSection, PdfError>)
        ensures
            match r {
                Ok(sec) => spec_parse_section(b@) == Ok::<SectionModel, PdfErrorKind>(sec@),
                Err(err) => spec_parse_section(b@) == Err::<SectionModel, PdfErrorKind>(err.kind),
            },
    {
        let n = b.len();
        if n == 0 {
            assert(line_at(b@, 0) =~= Seq::<u8>::empty());
            return Err(PdfError::parse_error());
        }
        let (le, start) = line_bounds(b, 0);
        let kw: [u8; 4] = [0x78, 0x72, 0x65, 0x66];
        assert(kw@ =~= xref_keyword());
        if !(le == 4 && bytes_at(b, 0, kw.as_slice())) {
            proof {
                if line_at(b@, 0) == xref_keyword() {
                    assert(b@.subrange(0, 4) =~= line_at(b@, 0));
                }
            }
            return Err(PdfError::parse_error());
        }
        assert(b@.subrange(0, 4) =~= line_at(b@, 0));
        let mut done: Vec<PdfCrossRefTableSubsection> = Vec::new();
        let mut cur: Option<PdfCrossRefTableSubsection> = None;
        let mut i: usize = start;
        assert(subsections_model(done@) =~= Seq::<SubsectionModel>::empty());
        while i < n
            invariant
                0 < i <= n,
                n == b@.len(),
                section_lines(b@, i as int, subsections_model(done@), opt_subsection_view(cur))
                    == spec_parse_section(b@),
            decreases n - i,
        {
            let (le, next) = line_bounds(b, i);
            let line = vstd::slice::slice_subrange(b, i, le);
            match PdfCrossRefTableSubsectionHeader::parse_line(line) {
                Ok(h) => {
                    match cur {
                        Some(c) => {
                            if c.entries.len() != c.header.len {
                                return Err(PdfError::parse_error());
                            }
                            let ghost before = done@;
                            done.push(c);
                            assert(subsections_model(done@) =~= subsections_model(before).push(c@));
                        },
                        None => {},
                    }
                    let fresh = PdfCrossRefTableSubsection { header: h, entries: Vec::new() };
                    assert(fresh@.1 =~= Seq::<EntryModel>::empty());
                    cur = Some(fresh);
                },
                Err(_) => {
                    match cur {
                        None => {
                            return Err(PdfError::parse_error());
                        },
                        Some(mut c) => {
                            match PdfCrossRefTableEntry::parse_line(line) {
                                Ok(en) => {
                                    let ghost before = c@;
                                    c.entries.push(en);
                                    assert(c@.1 =~= before.1.push(en@));
                                    cur = Some(c);
                                },
                                Err(_) => {
                                    return Err(PdfError::parse_error());
                                },
                            }
                        },
                    }
                },
            }
            i = next;
        }
        match cur {
            Some(c) => {
                if c.entries.len() != c.header.len {
                    return Err(PdfError::parse_error());
                }
                let ghost before = done@;
                done.push(c);
                assert(subsections_model(done@) =~= subsections_model(before).push(c@));
            },
            None => {},
        }
        Ok(PdfCrossRefTableSection { subsections: done })
    }
}

impl PdfCrossRefTable {
    pub fn new(sections: Vec<PdfCrossRefTableSection>) -> (r: Self)
        ensures
            r@ == sections_model(sections@),
    {
        PdfCrossRefTable { sections }
    }

    pub fn sections(&self) -> (r: &[PdfCrossRefTableSection])
        ensures
            sections_model(r@) == self@,
    {
        self.sections.as_slice()
    }

    /// Reads a table from the whole of `b`.
    pub fn parse_bytes(b: &[u8]) -> (r: Result<PdfCrossRefTable, PdfError>)
        ensures
            match r {
                Ok(t) => spec_parse_table(b@) == Ok::<Seq<SectionModel>, PdfErrorKind>(t@),
                Err(err) => spec_parse_table(b@) == Err::<Seq<SectionModel>, PdfErrorKind>(err.kind),
            },
    {
        let n = b.len();
        let kw: [u8; 4] = [0x78, 0x72, 0x65, 0x66];
        assert(kw@ =~= xref_keyword());
        let mut f: usize = 0;
        while n - f >= 4 && !bytes_at(b, f, kw.as_slice())
            invariant
                0 <= f <= n,
                n == b@.len(),
                kw@ == xref_keyword(),
                find_keyword(b@, f as int) == find_keyword(b@, 0),
            decreases n - f,
        {
            f = f + 1;
        }
        let mut sections: Vec<PdfCrossRefTableSection> = Vec::new();
        assert(sections_model(sections@) =~= Seq::<SectionModel>::empty());
        if n - f < 4 {
            return Ok(PdfCrossRefTable { sections });
        }
        let mut i: usize = f;
        while i < n
            invariant
                0 <= i <= n,
                n == b@.len(),
                kw@ == xref_keyword(),
                i + 4 <= n,
                table_sections(b@, i as int, sections_model(sections@)) == spec_parse_table(b@),
            decreases n - i,
        {
            let mut nx: usize = i + 4;
            while n - nx >= 4 && !bytes_at(b, nx, kw.as_slice())
                invariant
                    i + 4 <= nx <= n,
                    n == b@.len(),
                    kw@ == xref_keyword(),
                    find_keyword(b@, nx as int) == find_keyword(b@, i + 4),
                decreases n - nx,
            {
                nx = nx + 1;
            }
            let found = n - nx >= 4;
            let end = if found {
                nx
            } else {
                n
            };
            match PdfCrossRefTableSection::parse_bytes(vstd::slice::slice_subrange(b, i, end)) {
                Err(err) => {
                    return Err(err);
                },
                Ok(sec) => {
                    let ghost before = sections@;
                    sections.push(sec);
                    assert(sections_model(sections@) =~= sections_model(before).push(sec@));
                    if !found {
                        return Ok(PdfCrossRefTable { sections });
                    }
                    i = nx;
                },
            }
        }
        Ok(PdfCrossRefTable { sections })
    }
}

impl std::str::FromStr for PdfCrossRefTableEntry {
    type Err = PdfError;

    fn from_str(s: &str) -> (r: Result<PdfCrossRefTableEntry, PdfError>)
        ensures
            match r {
                Ok(e) => spec_parse_entry(s.spec_bytes()) == Ok::<EntryModel, PdfErrorKind>(e@),
                Err(err) => spec_parse_entry(s.spec_bytes()) == Err::<EntryModel, PdfErrorKind>(err.kind),
            },
    {
        PdfCrossRefTableEntry::parse_line(s.as_bytes())
    }
}

impl std::str::FromStr for PdfCrossRefTableSubsectionHeader {
    type Err = PdfError;

    fn from_str(s: &str) -> (r: Result<PdfCrossRefTableSubsectionHeader, PdfError>)
        ensures
            match r {
                Ok(h) => spec_parse_subsection_header(s.spec_bytes()) == Ok::<(usize, usize), PdfErrorKind>(h@),
                Err(err) => spec_parse_subsection_header(s.spec_bytes()) == Err::<(usize, usize), PdfErrorKind>(
                    err.kind,
                ),
            },
    {
        PdfCrossRefTableSubsectionHeader::parse_line(s.as_bytes())
    }
}

impl std::str::FromStr for PdfCrossRefTableSection {
    type Err = PdfError;

    fn from_str(s: &str) -> (r: Result<PdfCrossRefTableSection, PdfError>)
        ensures
            match r {
                Ok(sec) => spec_parse_section(s.spec_bytes()) == Ok::<SectionModel, PdfErrorKind>(sec@),
                Err(err) => spec_parse_section(s.spec_bytes()) == Err::<SectionModel, PdfErrorKind>(err.kind),
            },
    {
        PdfCrossRefTableSection::parse_bytes(s.as_bytes())
    }
}

impl std::str::FromStr for PdfCrossRefTable {
    type Err = PdfError;

    fn from_str(s: &str) -> (r: Result<PdfCrossRefTable, PdfError>)
        ensures
            match r {
                Ok(t) => spec_parse_table(s.spec_bytes()) == Ok::<Seq<SectionModel>, PdfErrorKind>(t@),
                Err(err) => spec_parse_table(s.spec_bytes()) == Err::<Seq<SectionModel>, PdfErrorKind>(err.kind),
            },
    {
        PdfCrossRefTable::parse_bytes(s.as_bytes())
    }
}

} // verus!
