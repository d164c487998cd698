//! The modules a Go program was built with, read from the build info the Go
//! linker embeds in every binary. A dependency on cobra tells us how the
//! program's `--help` is laid out.
//!
//! The build info sits in its own section (`.go.buildinfo` in ELF and PE,
//! `__go_buildinfo` in Mach-O). It starts with a 32-byte header at a 16-byte
//! boundary: a 14-byte magic, then flags at byte 15. With the inline-strings
//! flag set, two length-prefixed strings follow: the Go version and the
//! module info, whose text between 16-byte sentinels lists one `dep` line per
//! module.

use vstd::prelude::*;
use crate::classify::GoDep;

use vstd::utf8::{decode_utf8, valid_utf8};
use goblin::Object;
use goblin::mach::Mach as MachO;
use self::ObjectRows::{Elf, Mach, Other, Pe};
use crate::text::{utf8_text, chars_of, eq_chars, lines, split, split_lines, split_on, to_string, views_as};

verus! {

pub open spec fn magic() -> Seq<u8> {
    seq![0xffu8, 0x20u8, 0x47u8, 0x6fu8, 0x20u8, 0x62u8, 0x75u8, 0x69u8, 0x6cu8, 0x64u8, 0x69u8, 0x6eu8, 0x66u8, 0x3au8]
}

/// Bit of the header's flags byte saying that the strings follow inline.
pub const FLAGS_VERSION_INL: u8 = 0x2;

pub open spec fn round16(n: int) -> int {
    ((n + 15) / 16) * 16
}

/// Where the magic first stands at a 16-byte boundary, looking from `off`
/// on, with a whole header's room before the end.
pub open spec fn magic_from(d: Seq<u8>, off: int) -> Option<int>
    decreases d.len() - off,
{
    if off < 0 || off + 32 > d.len() {
        None
    } else {
        let a = round16(off);
        if a + 14 > d.len() {
            None
        } else if d.subrange(a, a + 14) == magic() {
            Some(a)
        } else {
            magic_from(d, a + 16)
        }
    }
}

/// A varint read from `pos` on, with `value` accumulated so far: its value
/// and where it ends, or `None` if it runs off the data or past 64 bits.
pub open spec fn varint_scan(d: Seq<u8>, pos: int, shift: u64, value: u64) -> Option<(u64, int)>
    decreases 64 - shift,
{
    if pos < 0 || pos >= d.len() || shift >= 64 {
        None
    } else {
        let b = d[pos];
        let v = value | (((b & 0x7f) as u64) << shift);
        if b & 0x80 == 0 {
            Some((v, pos + 1))
        } else if shift + 7 >= 64 {
            None
        } else {
            varint_scan(d, pos + 1, (shift + 7) as u64, v)
        }
    }
}

/// The string a length prefix at `start` announces: where it starts and how
/// long it is, if it fits in the data.
pub open spec fn prefixed_at(d: Seq<u8>, start: int) -> Option<(int, int)> {
    match varint_scan(d, start, 0, 0) {
        Some((len, pos)) => if pos + len <= d.len() { Some((pos, len as int)) } else { None },
        None => None,
    }
}

/// A `dep\t<path>\t<version>` line as a module path and version.
pub open spec fn dep_of_line(l: Seq<char>) -> Option<(Seq<char>, Seq<char>)> {
    let ps = split(l, seq!['\t']);
    if ps.len() < 3 || ps[0] != "dep"@ {
        None
    } else {
        Some((ps[1], ps[2]))
    }
}

pub open spec fn deps_of_lines(ls: Seq<Seq<char>>) -> Seq<(Seq<char>, Seq<char>)>
    decreases ls.len(),
{
    if ls.len() == 0 {
        seq![]
    } else {
        let rest = deps_of_lines(ls.drop_last());
        match dep_of_line(ls.last()) {
            Some(d) => rest.push(d),
            None => rest,
        }
    }
}

/// The modules module info lists, if it is framed as the linker frames it.
pub open spec fn mod_info_deps(raw: Seq<u8>) -> Option<Seq<(Seq<char>, Seq<char>)>> {
    if raw.len() < 33 || raw[raw.len() - 17] != 10u8 {
        None
    } else {
        let body = raw.subrange(16, raw.len() - 16);
        if valid_utf8(body) {
            Some(deps_of_lines(lines(decode_utf8(body))))
        } else {
            None
        }
    }
}

/// The modules a build-info section lists.
pub open spec fn buildinfo_deps(s: Seq<u8>) -> Option<Seq<(Seq<char>, Seq<char>)>> {
    match magic_from(s, 0) {
        None => None,
        Some(m) => if m + 32 > s.len() || s[m + 15] & FLAGS_VERSION_INL == 0 {
            None
        } else {
            match prefixed_at(s, m + 32) {
                None => None,
                Some((p1, l1)) => match prefixed_at(s, p1 + l1) {
                    None => None,
                    Some((p2, l2)) => mod_info_deps(s.subrange(p2, p2 + l2)),
                },
            }
        },
    }
}

pub open spec fn dep_v(d: GoDep) -> (Seq<char>, Seq<char>) {
    (d.path@, d.version@)
}

pub open spec fn deps_v(v: Seq<GoDep>) -> Seq<(Seq<char>, Seq<char>)> {
    v.map_values(|d: GoDep| dep_v(d))
}

fn eq_bytes(a: &[u8], b: &[u8]) -> (r: bool)
    ensures
        r == (a@ == b@),
{
    if a.len() != b.len() {
        return false;
    }
    let mut i: usize = 0;
    while i < a.len()
        invariant
            i <= a@.len(),
            a@.len() == b@.len(),
            forall|k: int| 0 <= k < i ==> a@[k] == b@[k],
        decreases a@.len() - i,
    {
        if a[i] != b[i] {
            return false;
        }
        i += 1;
    }
    assert(a@ =~= b@);
    true
}

/// Where the build-info header starts.
pub fn find_aligned_magic(data: &[u8]) -> (r: Option<usize>)
    ensures
        match r {
            Some(a) => magic_from(data@, 0) == Some(a as int),
            None => magic_from(data@, 0) is None,
        },
{
    let m: [u8; 14] = [0xff, 0x20, 0x47, 0x6f, 0x20, 0x62, 0x75, 0x69, 0x6c, 0x64, 0x69, 0x6e, 0x66, 0x3a];
    assert(m@ =~= magic());
    let mut offset: usize = 0;
    while offset <= data.len() && data.len() - offset >= 32
        invariant
            offset <= data@.len() + 16,
            m@ == magic(),
            magic_from(data@, 0) == magic_from(data@, offset as int),
        decreases data@.len() + 16 - offset,
    {
        let aligned = (offset + 15) / 16 * 16;
        assert(round16(offset as int) == aligned);
        if aligned + 14 > data.len() {
            return None;
        }
        let window = vstd::slice::slice_subrange(data, aligned, aligned + 14);
        if eq_bytes(window, &m) {
            return Some(aligned);
        }
        offset = aligned + 16;
    }
    None
}

/// The string whose length prefix starts at `start`: where it starts and how
/// long it is.
pub fn read_varint_bytes(data: &[u8], start: usize) -> (r: Option<(usize, usize)>)
    ensures
        match r {
            Some((p, l)) => prefixed_at(data@, start as int) == Some((p as int, l as int)),
            None => prefixed_at(data@, start as int) is None,
        },
{
    let mut value: u64 = 0;
    let mut shift: u64 = 0;
    let mut pos: usize = start;
    loop
        invariant_except_break
            shift < 64,
            pos >= start,
            varint_scan(data@, start as int, 0, 0) == varint_scan(data@, pos as int, shift, value),
        ensures
            pos <= data@.len(),
            varint_scan(data@, start as int, 0, 0) == Some((value, pos as int)),
        decreases 64 - shift,
    {
        if pos >= data.len() {
            return None;
        }
        let byte = data[pos];
        pos += 1;
        value = value | (((byte & 0x7f) as u64) << shift);
        if byte & 0x80 == 0 {
            break;
        }
        if shift + 7 >= 64 {
            return None;
        }
        shift += 7;
    }
    if value > (data.len() - pos) as u64 {
        return None;
    }
    let len = value as usize;
    Some((pos, len))
}

fn dep_from_line(l: &[char]) -> (r: Option<GoDep>)
    ensures
        match r {
            Some(d) => dep_of_line(l@) == Some(dep_v(d)),
            None => dep_of_line(l@) is None,
        },
{
    let tab = ['\t'];
    assert(tab@ =~= seq!['\t']);
    let parts = split_on(l, &tab);
    let dep = ['d', 'e', 'p'];
    proof {
        reveal_strlit("dep");
        assert(dep@ =~= "dep"@);
    }
    if parts.len() < 3 || !eq_chars(parts[0], &dep) {
        return None;
    }
    Some(GoDep { path: to_string(parts[1]), version: to_string(parts[2]) })
}

/// The modules module info lists.
pub fn parse_mod_info(raw: &[u8]) -> (r: Option<Vec<GoDep>>)
    ensures
        match r {
            Some(v) => mod_info_deps(raw@) == Some(deps_v(v@)),
            None => mod_info_deps(raw@) is None,
        },
{
    let n = raw.len();
    if n < 33 || raw[n - 17] != 10u8 {
        return None;
    }
    let body = vstd::slice::slice_subrange(raw, 16, n - 16);
    let content = match utf8_text(body) {
        Some(c) => c,
        None => return None,
    };
    let cs = chars_of(content.as_str());
    let ls = split_lines(cs.as_slice());
    let ghost l = lines(content@);
    let mut out: Vec<GoDep> = Vec::new();
    let mut i: usize = 0;
    while i < ls.len()
        invariant
            i <= ls@.len(),
            views_as(ls@, l),
            deps_v(out@) == deps_of_lines(l.take(i as int)),
        decreases ls@.len() - i,
    {
        assert(l.take(i + 1).drop_last() =~= l.take(i as int));
        assert(l.take(i + 1).last() == ls@[i as int]@);
        let ghost before = deps_v(out@);
        match dep_from_line(ls[i]) {
            Some(d) => {
                let ghost dv = dep_v(d);
                out.push(d);
                assert(deps_v(out@) =~= before.push(dv));
            },
            None => {},
        }
        i += 1;
    }
    assert(l.take(l.len() as int) =~= l);
    Some(out)
}

/// The modules a build-info section lists.
pub fn parse_buildinfo(section: &[u8]) -> (r: Option<Vec<GoDep>>)
    ensures
        match r {
            Some(v) => buildinfo_deps(section@) == Some(deps_v(v@)),
            None => buildinfo_deps(section@) is None,
        },
{
    let m = match find_aligned_magic(section) {
        Some(m) => m,
        None => return None,
    };
    if m > section.len() || section.len() - m < 32 {
        return None;
    }
    let flags = section[m + 15];
    if flags & FLAGS_VERSION_INL == 0 {
        return None;
    }
    let (p1, l1) = match read_varint_bytes(section, m + 32) {
        Some(x) => x,
        None => return None,
    };
    let (p2, l2) = match read_varint_bytes(section, p1 + l1) {
        Some(x) => x,
        None => return None,
    };
    let info = vstd::slice::slice_subrange(section, p2, p2 + l2);
    parse_mod_info(info)
}

// ---------------------------------------------------------------------------
// Finding the section
// ---------------------------------------------------------------------------

/// One row of an object file's section table: its name, when it can be read,
/// and the bytes of the file it covers.
pub struct SectionRow {
    pub name: Option<String>,
    pub offset: u64,
    pub size: u64,
}

pub struct RowV {
    pub name: Option<Seq<char>>,
    pub offset: int,
    pub size: int,
}

pub open spec fn row_v(r: SectionRow) -> RowV {
    RowV {
        name: match r.name {
            Some(n) => Some(n@),
            None => None,
        },
        offset: r.offset as int,
        size: r.size as int,
    }
}

pub open spec fn rows_v(v: Seq<SectionRow>) -> Seq<RowV> {
    v.map_values(|r: SectionRow| row_v(r))
}

pub open spec fn segments_v(v: Seq<Option<Vec<SectionRow>>>) -> Seq<Option<Seq<RowV>>> {
    v.map_values(|s: Option<Vec<SectionRow>>| match s {
        Some(rows) => Some(rows_v(rows@)),
        None => None,
    })
}

/// The section tables of an object file, by the kind of object it is: a
/// single-architecture Mach-O object's, segment by segment (`None` for a
/// segment whose sections could not be read), an ELF object's, or a PE
/// object's; `Other` for anything else, or bytes that do not parse.
pub enum ObjectRows {
    Mach(Vec<Option<Vec<SectionRow>>>),
    Elf(Vec<SectionRow>),
    Pe(Vec<SectionRow>),
    Other,
}

pub enum ObjectV {
    Mach(Seq<Option<Seq<RowV>>>),
    Elf(Seq<RowV>),
    Pe(Seq<RowV>),
    Other,
}

pub open spec fn object_v(o: ObjectRows) -> ObjectV {
    match o {
        ObjectRows::Mach(segs) => ObjectV::Mach(segments_v(segs@)),
        ObjectRows::Elf(rows) => ObjectV::Elf(rows_v(rows@)),
        ObjectRows::Pe(rows) => ObjectV::Pe(rows_v(rows@)),
        ObjectRows::Other => ObjectV::Other,
    }
}

/// What goblin reads from `data` as an object file: the kind of object and
/// its section tables.
pub uninterp spec fn goblin_object(data: Seq<u8>) -> ObjectV;

/// A section-table row from what goblin gives for one section.
fn section_row(name: Option<&str>, offset: u64, size: u64) -> (r: SectionRow)
    ensures
        row_v(r) == (RowV {
            name: match name {
                Some(n) => Some(n@),
                None => None,
            },
            offset: offset as int,
            size: size as int,
        }),
{
    let name = match name {
        Some(n) => Some(n.to_string()),
        None => None,
    };
    SectionRow { name, offset, size }
}

/// A section-table row from a section name goblin may have failed to read.
fn read_row<E>(name: Result<&str, E>, offset: u32, size: u64) -> (r: SectionRow)
    ensures
        row_v(r) == (RowV {
            name: match name {
                Ok(n) => Some(n@),
                Err(_) => None,
            },
            offset: offset as int,
            size: size as int,
        }),
{
    match name {
        Ok(n) => section_row(Some(n), offset as u64, size),
        Err(_) => section_row(None, offset as u64, size),
    }
}

/// The rows of a segment's sections, or nothing when they could not be read.
fn section_rows<T, E, F: Fn(&T) -> SectionRow>(sections: Result<Vec<T>, E>, row: F) -> (r: Option<Vec<SectionRow>>)
    requires
        forall|t: &T| row.requires((t,)),
    ensures
        r is Some <==> sections is Ok,
        r matches Some(v) ==> v@.len() == sections->Ok_0@.len(),
{
    match sections {
        Ok(v) => {
            let mut out: Vec<SectionRow> = Vec::new();
            let mut i: usize = 0;
            while i < v.len()
                invariant
                    i <= v@.len(),
                    out@.len() == i,
                    forall|t: &T| row.requires((t,)),
                decreases v@.len() - i,
            {
                out.push(row(&v[i]));
                i += 1;
            }
            Some(out)
        },
        Err(_) => None,
    }
}

/// `goblin::Object::parse` on `data`, and the section tables of what it
/// gives: for a single-architecture Mach-O object, each segment's
/// `Segment::sections`, each named by `Section::name`; for an ELF object, its
/// section headers, each named through the section-name string table
/// (`Strtab::get_at`); for a PE object, its section table, each named by
/// `SectionTable::name`; with the file offset and size each section covers.
/// The contract names the result; goblin's parsing is not restated. It
/// speaks of the outcome when `parse` returns: goblin's source does not
/// settle whether it returns on every malformed byte string, and the
/// library, which reads whatever file it is handed, does not keep such
/// input out.
#[verifier::external_body]
fn object_rows(data: &[u8]) -> (r: ObjectRows)
    ensures
        object_v(r) == goblin_object(data@),
{
    match Object::parse(data) {
        Ok(Object::Mach(MachO::Binary(m))) => Mach(m.segments.iter()
            .map(|g| section_rows(g.sections(), |(t, _)| read_row(t.name(), t.offset, t.size))).collect()),
        Ok(Object::Elf(e)) => Elf(e.section_headers.iter()
            .map(|h| section_row(e.shdr_strtab.get_at(h.sh_name), h.sh_offset, h.sh_size)).collect()),
        Ok(Object::PE(p)) => Pe(p.sections.iter()
            .map(|t| read_row(t.name(), t.pointer_to_raw_data, t.size_of_raw_data as u64)).collect()),
        _ => Other,
    }
}

pub open spec fn elf_section_name() -> Seq<char> {
    ".go.buildinfo"@
}

pub open spec fn mach_section_name() -> Seq<char> {
    "__go_buildinfo"@
}

/// The range of the first row named `target`. Where `strict`, a row whose
/// name cannot be read ends the search with nothing.
pub open spec fn pick_row(rows: Seq<RowV>, target: Seq<char>, strict: bool) -> Option<(int, int)>
    decreases rows.len(),
{
    if rows.len() == 0 {
        None
    } else {
        let r = rows[0];
        match r.name {
            None => if strict { None } else { pick_row(rows.skip(1), target, strict) },
            Some(n) => if n == target { Some((r.offset, r.size)) } else { pick_row(rows.skip(1), target, strict) },
        }
    }
}

/// The range of the first Mach-O section so named; a segment whose sections
/// cannot be read ends the search with nothing.
pub open spec fn pick_segment(segs: Seq<Option<Seq<RowV>>>) -> Option<(int, int)>
    decreases segs.len(),
{
    if segs.len() == 0 {
        None
    } else {
        match segs[0] {
            None => None,
            Some(rows) => match pick_row(rows, mach_section_name(), false) {
                Some(x) => Some(x),
                None => pick_segment(segs.skip(1)),
            },
        }
    }
}

/// Where the build info lies in an object file, if it has that section.
pub open spec fn buildinfo_range(data: Seq<u8>) -> Option<(int, int)> {
    match goblin_object(data) {
        ObjectV::Mach(segs) => pick_segment(segs),
        ObjectV::Elf(rows) => pick_row(rows, elf_section_name(), true),
        ObjectV::Pe(rows) => pick_row(rows, elf_section_name(), true),
        ObjectV::Other => None,
    }
}

/// The build-info section's bytes, if the object has one lying within it.
pub open spec fn buildinfo_section(data: Seq<u8>) -> Option<Seq<u8>> {
    match buildinfo_range(data) {
        Some((o, n)) => if o + n <= data.len() { Some(data.subrange(o, o + n)) } else { None },
        None => None,
    }
}

fn find_row(rows: &Vec<SectionRow>, target: &[char], strict: bool) -> (r: Option<(u64, u64)>)
    ensures
        match r {
            Some((o, n)) => pick_row(rows_v(rows@), target@, strict) == Some((o as int, n as int)),
            None => pick_row(rows_v(rows@), target@, strict) is None,
        },
{
    let ghost rv = rows_v(rows@);
    assert(rv.skip(0) =~= rv);
    let mut i: usize = 0;
    while i < rows.len()
        invariant
            i <= rows@.len(),
            rv == rows_v(rows@),
            pick_row(rv, target@, strict) == pick_row(rv.skip(i as int), target@, strict),
        decreases rows@.len() - i,
    {
        assert(rv.skip(i as int)[0] == row_v(rows@[i as int]));
        assert(rv.skip(i as int).skip(1) =~= rv.skip(i + 1));
        match &rows[i].name {
            None => {
                if strict {
                    return None;
                }
            },
            Some(n) => {
                let nc = chars_of(n.as_str());
                if eq_chars(nc.as_slice(), target) {
                    return Some((rows[i].offset, rows[i].size));
                }
            },
        }
        i += 1;
    }
    assert(rv.skip(i as int) =~= Seq::<RowV>::empty());
    None
}

fn find_segment(segs: &Vec<Option<Vec<SectionRow>>>) -> (r: Option<(u64, u64)>)
    ensures
        match r {
            Some((o, n)) => pick_segment(segments_v(segs@)) == Some((o as int, n as int)),
            None => pick_segment(segments_v(segs@)) is None,
        },
{
    let target = ['_', '_', 'g', 'o', '_', 'b', 'u', 'i', 'l', 'd', 'i', 'n', 'f', 'o'];
    proof {
        reveal_strlit("__go_buildinfo");
        assert(target@ =~= mach_section_name());
    }
    let ghost sv = segments_v(segs@);
    assert(sv.skip(0) =~= sv);
    let mut i: usize = 0;
    while i < segs.len()
        invariant
            i <= segs@.len(),
            sv == segments_v(segs@),
            target@ == mach_section_name(),
            pick_segment(sv) == pick_segment(sv.skip(i as int)),
        decreases segs@.len() - i,
    {
        assert(sv.skip(i as int).skip(1) =~= sv.skip(i + 1));
        match &segs[i] {
            None => {
                return None;
            },
            Some(rows) => {
                match find_row(rows, &target, false) {
                    Some(x) => {
                        return Some(x);
                    },
                    None => {},
                }
            },
        }
        i += 1;
    }
    assert(sv.skip(i as int) =~= Seq::<Option<Seq<RowV>>>::empty());
    None
}

/// The build-info section of an object file.
pub fn find_buildinfo_section(data: &[u8]) -> (r: Option<&[u8]>)
    ensures
        match r {
            Some(s) => buildinfo_section(data@) == Some(s@),
            None => buildinfo_section(data@) is None,
        },
{
    let dot = ['.', 'g', 'o', '.', 'b', 'u', 'i', 'l', 'd', 'i', 'n', 'f', 'o'];
    proof {
        reveal_strlit(".go.buildinfo");
        assert(dot@ =~= elf_section_name());
    }
    let range = match object_rows(data) {
        ObjectRows::Mach(segs) => find_segment(&segs),
        ObjectRows::Elf(rows) => find_row(&rows, &dot, true),
        ObjectRows::Pe(rows) => find_row(&rows, &dot, true),
        ObjectRows::Other => None,
    };
    match range {
        Some((o, n)) => {
            let len = data.len() as u64;
            if o <= len && n <= len - o {
                Some(vstd::slice::slice_subrange(data, o as usize, (o + n) as usize))
            } else {
                None
            }
        },
        None => None,
    }
}

/// The modules an object file's build info lists.
pub fn deps_of_object(data: &[u8]) -> (r: Option<Vec<GoDep>>)
    ensures
        match r {
            Some(v) => match buildinfo_section(data@) {
                Some(s) => buildinfo_deps(s) == Some(deps_v(v@)),
                None => false,
            },
            None => match buildinfo_section(data@) {
                Some(s) => buildinfo_deps(s) is None,
                None => true,
            },
        },
{
    match find_buildinfo_section(data) {
        Some(s) => parse_buildinfo(s),
        None => None,
    }
}

} // verus!
