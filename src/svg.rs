use crate::font::{patch_font, patched_font, FontError};
use quick_xml::events::Event;
use vstd::prelude::*;
use vstd::string::is_ascii;
use vstd::string::StringSliceAdditionalSpecFns;
use vstd::utf8::{encode_utf8, is_ascii_chars};

verus! {

/// An XML reader over a byte stream and its event buffer. Verus refuses to
/// declare `quick_xml::Reader` (its type parameter carries a `BufRead` bound), so
/// the reader is held here out of Verus's sight.
#[verifier::external_body]
struct XmlCursor<'a> {
    reader: quick_xml::Reader<&'a [u8]>,
    buf: Vec<u8>,
}

#[verifier::external_type_specification]
#[verifier::external_body]
pub struct ExXmlError(quick_xml::Error);

#[verifier::external_type_specification]
#[verifier::external_body]
pub struct ExRegex(regex::Regex);

/// The events of an XML stream that the library looks at.
#[derive(Debug)]
pub enum XmlEvent {
    /// An XML declaration.
    Decl,
    /// A CDATA section, as text.
    CData(String),
    /// The end of the stream.
    Eof,
    /// Anything else.
    Other,
}

/// Why a stream of SVG documents could not be split or an embedded font loaded.
#[derive(Clone, Copy, Debug, PartialEq, Eq, Structural)]
pub enum SvgError {
    /// The XML reader failed.
    Xml,
    /// The reader reported a position outside the stream or before an earlier one.
    Position,
    /// The reader went on past the end of the stream.
    Stalled,
    /// The font family name is not ASCII.
    Family,
    /// The font data is not valid base64.
    Base64,
    /// The font's name table could not be patched.
    Font(FontError),
    /// The font-face pattern did not compile.
    Pattern,
}

/// What the reader makes of one event: a declaration, the text of a CDATA
/// section, the end, or anything else.
pub enum XmlItem {
    Decl,
    CData(Seq<char>),
    Eof,
    Other,
}

/// What `quick_xml::Reader::read_event` gives as event `k` (counted from zero)
/// of a reader over `b` that started at its beginning, with a CDATA section's
/// text unescaped; `None` where the reader fails on it. The reader reads the
/// bytes alone.
pub uninterp spec fn xml_event(b: Seq<u8>, k: int) -> Option<XmlItem>;

/// What `quick_xml::Reader::buffer_position` gives after `k` events of `b`.
pub uninterp spec fn xml_offset(b: Seq<u8>, k: int) -> int;

/// A reader over `bytes` that has read `read` events. Its fields are set only by
/// `open_stream` and the reader's wrappers below.
pub struct XmlStream<'a> {
    cursor: XmlCursor<'a>,
    bytes: Ghost<Seq<u8>>,
    read: Ghost<int>,
}

impl<'a> XmlStream<'a> {
    pub closed spec fn bytes(self) -> Seq<u8> {
        self.bytes@
    }

    pub closed spec fn read(self) -> int {
        self.read@
    }
}

pub open spec fn item_of(e: XmlEvent) -> XmlItem {
    match e {
        XmlEvent::Decl => XmlItem::Decl,
        XmlEvent::CData(t) => XmlItem::CData(t@),
        XmlEvent::Eof => XmlItem::Eof,
        XmlEvent::Other => XmlItem::Other,
    }
}

/// Relies on `quick_xml::Reader::from_reader`: a reader at the start of `bytes`.
#[verifier::external_body]
fn xml_reader<'a>(bytes: &'a [u8]) -> XmlCursor<'a> {
    XmlCursor { reader: quick_xml::Reader::from_reader(bytes), buf: Vec::new() }
}

/// A reader at the start of `bytes`.
fn open_stream<'a>(bytes: &'a [u8]) -> (r: XmlStream<'a>)
    ensures
        r.bytes() == bytes@,
        r.read() == 0,
{
    XmlStream { cursor: xml_reader(bytes), bytes: Ghost(bytes@), read: Ghost(0) }
}

/// Relies on `quick_xml::Reader::read_event`: reads the next event, told apart as
/// a declaration, a CDATA section, the end, or anything else. This version of the
/// reader hands a CDATA section over escaped; `BytesText::unescaped` gives its
/// text back, read as UTF-8 with invalid sequences replaced.
#[verifier::external_body]
fn next_event(s: &mut XmlStream) -> (r: Result<XmlEvent, quick_xml::Error>)
    ensures
        final(s).bytes() == old(s).bytes(),
        final(s).read() == old(s).read() + 1,
        match r {
            Ok(e) => xml_event(old(s).bytes(), old(s).read()) == Some(item_of(e)),
            Err(_) => xml_event(old(s).bytes(), old(s).read()) is None,
        },
{
    let c = &mut s.cursor;
    c.buf.clear();
    match c.reader.read_event(&mut c.buf) {
        Ok(Event::Decl(_)) => Ok(XmlEvent::Decl),
        Ok(Event::CData(e)) => match e.unescaped() {
            Ok(t) => Ok(XmlEvent::CData(String::from_utf8_lossy(&t).into_owned())),
            Err(err) => Err(err),
        },
        Ok(Event::Eof) => Ok(XmlEvent::Eof),
        Ok(_) => Ok(XmlEvent::Other),
        Err(e) => Err(e),
    }
}

/// Relies on `quick_xml::Reader::buffer_position`: the byte offset the reader
/// has reached.
#[verifier::external_body]
fn xml_position(s: &XmlStream) -> (r: usize)
    ensures
        r == xml_offset(s.bytes(), s.read()),
{
    s.cursor.reader.buffer_position()
}

/// Cut points for a stream of `len` bytes: non-decreasing, the last one at the end.
pub open spec fn valid_cuts(cuts: Seq<usize>, len: int) -> bool {
    &&& cuts.len() >= 1
    &&& cuts.last() == len
    &&& forall|i: int, j: int| 0 <= i <= j < cuts.len() ==> cuts[i] <= cuts[j]
}

/// The pieces of `bytes` between consecutive cut points.
pub fn split_at_cuts<'a>(bytes: &'a [u8], cuts: &Vec<usize>) -> (r: Vec<&'a [u8]>)
    requires
        valid_cuts(cuts@, bytes@.len() as int),
    ensures
        r@.len() == cuts@.len() - 1,
        forall|i: int|
            0 <= i < r@.len() ==> (#[trigger] r@[i])@ == bytes@.subrange(
                cuts@[i] as int,
                cuts@[i + 1] as int,
            ),
{
    let mut r: Vec<&'a [u8]> = Vec::new();
    let n = cuts.len();
    let mut i: usize = 0;
    while i + 1 < n
        invariant
            n == cuts@.len(),
            valid_cuts(cuts@, bytes@.len() as int),
            i + 1 <= cuts@.len(),
            r@.len() == i,
            forall|k: int|
                0 <= k < i ==> (#[trigger] r@[k])@ == bytes@.subrange(
                    cuts@[k] as int,
                    cuts@[k + 1] as int,
                ),
        decreases cuts@.len() - i,
    {
        assert(cuts@[i as int] <= cuts@[i + 1]);
        assert(cuts@[i + 1] <= cuts@[cuts@.len() - 1]);
        let piece = vstd::slice::slice_subrange(bytes, cuts[i], cuts[i + 1]);
        r.push(piece);
        i = i + 1;
    }
    r
}

/// The offsets before each declaration among events `k` on of `b`: `last` is
/// the reader's position before event `k`, and at most `budget` more events
/// other than the end are read. Fails where the reader fails, reports a position
/// before `last` or past the end, or reads more than `budget` events.
pub open spec fn decl_cuts(b: Seq<u8>, k: int, last: int, budget: int) -> Result<Seq<usize>, SvgError>
    decreases budget,
{
    match xml_event(b, k) {
        None => Err(SvgError::Xml),
        Some(XmlItem::Eof) => Ok(Seq::empty()),
        Some(e) => if budget <= 0 {
            Err(SvgError::Stalled)
        } else {
            let pos = xml_offset(b, k + 1);
            if pos < last || pos > b.len() {
                Err(SvgError::Position)
            } else {
                match decl_cuts(b, k + 1, pos, budget - 1) {
                    Ok(rest) => Ok(if e is Decl { seq![last as usize] + rest } else { rest }),
                    Err(x) => Err(x),
                }
            }
        },
    }
}

pub open spec fn after_cuts(done: Seq<usize>, r: Result<Seq<usize>, SvgError>) -> Result<Seq<usize>, SvgError> {
    match r {
        Ok(rest) => Ok(done + rest),
        Err(x) => Err(x),
    }
}

/// Splits a stream of SVG documents, each starting with an XML declaration, into
/// one piece per document: the stream is cut before each declaration and at its
/// end (see `decl_cuts`).
pub fn split_svgs<'a>(bytes: &'a [u8]) -> (r: Result<Vec<&'a [u8]>, SvgError>)
    ensures
        match decl_cuts(bytes@, 0, 0, bytes@.len() as int) {
            Ok(c) => r is Ok && valid_cuts(c.push(bytes@.len() as usize), bytes@.len() as int) && r->Ok_0@.len()
                == c.len() && forall|i: int|
                0 <= i < c.len() ==> (#[trigger] r->Ok_0@[i])@ == bytes@.subrange(
                    c.push(bytes@.len() as usize)[i] as int,
                    c.push(bytes@.len() as usize)[i + 1] as int,
                ),
            Err(e) => r == Err::<Vec<&'a [u8]>, SvgError>(e),
        },
{
    let len = bytes.len();
    let ghost b = bytes@;
    let mut stream = open_stream(bytes);
    let mut cuts: Vec<usize> = Vec::new();
    let mut last_pos: usize = 0;
    let mut budget: usize = len;
    loop
        invariant_except_break
            decl_cuts(b, 0, 0, len as int) == after_cuts(
                cuts@,
                decl_cuts(b, stream.read(), last_pos as int, budget as int),
            ),
        invariant
            len == b.len(),
            b == bytes@,
            stream.bytes() == b,
            last_pos <= len,
            forall|i: int, j: int| 0 <= i <= j < cuts@.len() ==> cuts@[i] <= cuts@[j],
            forall|i: int| 0 <= i < cuts@.len() ==> cuts@[i] <= last_pos,
        ensures
            forall|i: int, j: int| 0 <= i <= j < cuts@.len() ==> cuts@[i] <= cuts@[j],
            forall|i: int| 0 <= i < cuts@.len() ==> cuts@[i] <= len,
            decl_cuts(b, 0, 0, len as int) == Ok::<Seq<usize>, SvgError>(cuts@),
        decreases budget,
    {
        let ghost k = stream.read();
        let event = match next_event(&mut stream) {
            Ok(e) => e,
            Err(_) => return Err(SvgError::Xml),
        };
        if let XmlEvent::Eof = event {
            assert(cuts@ + Seq::<usize>::empty() =~= cuts@);
            break;
        }
        if budget == 0 {
            return Err(SvgError::Stalled);
        }
        budget = budget - 1;
        let pos = xml_position(&stream);
        if pos < last_pos || pos > len {
            return Err(SvgError::Position);
        }
        if let XmlEvent::Decl = event {
            proof {
                if let Ok(rest) = decl_cuts(b, k + 1, pos as int, budget as int) {
                    assert(cuts@.push(last_pos) + rest =~= cuts@ + (seq![last_pos] + rest));
                }
            }
            cuts.push(last_pos);
        }
        last_pos = pos;
    }
    cuts.push(len);
    let parts = split_at_cuts(bytes, &cuts);
    Ok(parts)
}

/// What `base64::decode` gives for a text: the decoded bytes, or `None` where
/// the text is not valid base64.
pub uninterp spec fn base64_decoded(s: Seq<char>) -> Option<Seq<u8>>;

/// Relies on `base64::decode` (standard alphabet, with padding); its result
/// depends on the text alone.
#[verifier::external_body]
fn decode_base64(s: &str) -> (r: Option<Vec<u8>>)
    ensures
        match r {
            Some(v) => base64_decoded(s@) == Some(v@),
            None => base64_decoded(s@) is None,
        },
{
    match base64::decode(s) {
        Ok(v) => Some(v),
        Err(_) => None,
    }
}

/// The font that an SVG page embeds as base64 `payload` under family name
/// `family`, with its name table patched (see `patched_font`) so that a font
/// database accepts it.
pub fn decode_font(family: &str, payload: &str) -> (r: Result<Vec<u8>, SvgError>)
    ensures
        !is_ascii(family) ==> r == Err::<Vec<u8>, SvgError>(SvgError::Family),
        is_ascii(family) ==> match base64_decoded(payload@) {
            None => r == Err::<Vec<u8>, SvgError>(SvgError::Base64),
            Some(data) => match patched_font(data, family.spec_bytes()) {
                Ok(v) => r is Ok && r->Ok_0@ == v,
                Err(e) => r == Err::<Vec<u8>, SvgError>(SvgError::Font(e)),
            },
        },
{
    if !family.is_ascii() {
        return Err(SvgError::Family);
    }
    let data = match decode_base64(payload) {
        Some(d) => d,
        None => return Err(SvgError::Base64),
    };
    match patch_font(data.as_slice(), family) {
        Ok(v) => Ok(v),
        Err(e) => Err(SvgError::Font(e)),
    }
}

/// The font-face rule that the SVG converter writes for each embedded font:
/// family name, font format, base64 data.
pub const FONT_FACE_PATTERN: &'static str = "@font-face\\{font-family:(\\w+);src:url\\(data:application/x-font-(\\w+);base64,([-A-Za-z0-9+/=]+)\\) format\\('\\w+'\\);\\}";

/// Whether `regex::Regex::new` accepts the pattern `p`.
pub uninterp spec fn pattern_compiles(p: Seq<char>) -> bool;

/// What `regex::Regex::captures_iter` gives for the pattern `p` on `text`: for
/// each match, from the left and not overlapping, the text of each capture group
/// after the whole match (empty where a group took no part).
pub uninterp spec fn captures_of(p: Seq<char>, text: Seq<char>) -> Seq<Seq<Seq<char>>>;

/// Relies on `regex::Regex::new`: compiles a pattern, or fails on an invalid one.
#[verifier::external_body]
fn compile_regex(p: &str) -> (r: Option<regex::Regex>)
    ensures
        r is Some == pattern_compiles(p@),
{
    regex::Regex::new(p).ok()
}

/// A compiled pattern and the text it was compiled from. Its fields are set only
/// by `compile_pattern`.
pub struct Pattern {
    re: regex::Regex,
    source: Ghost<Seq<char>>,
}

impl Pattern {
    pub closed spec fn source(self) -> Seq<char> {
        self.source@
    }
}

/// The pattern `p` compiled, where it is valid.
fn compile_pattern(p: &str) -> (r: Option<Pattern>)
    ensures
        r is Some == pattern_compiles(p@),
        r matches Some(pat) ==> pat.source() == p@,
{
    match compile_regex(p) {
        Some(re) => Some(Pattern { re, source: Ghost(p@) }),
        None => None,
    }
}

pub open spec fn face_texts(face: Seq<String>) -> Seq<Seq<char>> {
    face.map_values(|t: String| t@)
}

pub open spec fn texts_of(v: Seq<Vec<String>>) -> Seq<Seq<Seq<char>>> {
    v.map_values(|g: Vec<String>| face_texts(g@))
}

/// Relies on `regex::Regex::captures_iter`: for each match in `text`, from the
/// left and not overlapping, the text of each capture group after the whole
/// match (empty where a group took no part).
#[verifier::external_body]
fn capture_all(pat: &Pattern, text: &str) -> (r: Vec<Vec<String>>)
    ensures
        texts_of(r@) == captures_of(pat.source(), text@),
{
    pat.re.captures_iter(text)
        .map(|c| c.iter().skip(1).map(|g| g.map_or(String::new(), |m| m.as_str().to_string())).collect())
        .collect()
}

/// The font of one font-face match (family name, font format, base64 data): the
/// decoded data with its name table patched (see `decode_font`).
pub open spec fn face_font(face: Seq<Seq<char>>) -> Result<Seq<u8>, SvgError> {
    if face.len() < 3 {
        Err(SvgError::Pattern)
    } else if !is_ascii_chars(face[0]) {
        Err(SvgError::Family)
    } else {
        match base64_decoded(face[2]) {
            None => Err(SvgError::Base64),
            Some(data) => match patched_font(data, encode_utf8(face[0])) {
                Ok(v) => Ok(v),
                Err(e) => Err(SvgError::Font(e)),
            },
        }
    }
}

/// The fonts of a sequence of font-face matches, or the failure of the first
/// match that fails.
pub open spec fn faces_fonts(faces: Seq<Seq<Seq<char>>>) -> Result<Seq<Seq<u8>>, SvgError>
    decreases faces.len(),
{
    if faces.len() == 0 {
        Ok(Seq::empty())
    } else {
        match face_font(faces[0]) {
            Err(e) => Err(e),
            Ok(v) => match faces_fonts(faces.drop_first()) {
                Ok(rest) => Ok(seq![v] + rest),
                Err(e) => Err(e),
            },
        }
    }
}

pub open spec fn after_fonts(done: Seq<Seq<u8>>, r: Result<Seq<Seq<u8>>, SvgError>) -> Result<Seq<Seq<u8>>, SvgError> {
    match r {
        Ok(rest) => Ok(done + rest),
        Err(x) => Err(x),
    }
}

pub open spec fn bytes_of(v: Seq<Vec<u8>>) -> Seq<Seq<u8>> {
    v.map_values(|f: Vec<u8>| f@)
}

/// The font of one font-face match (see `face_font`).
fn decode_face(face: &Vec<String>) -> (r: Result<Vec<u8>, SvgError>)
    ensures
        match face_font(face_texts(face@)) {
            Ok(v) => r is Ok && r->Ok_0@ == v,
            Err(e) => r == Err::<Vec<u8>, SvgError>(e),
        },
{
    let ghost f = face_texts(face@);
    assert(f.len() == face@.len());
    if face.len() < 3 {
        return Err(SvgError::Pattern);
    }
    assert(f[0] == face@[0]@ && f[2] == face@[2]@);
    decode_font(face[0].as_str(), face[2].as_str())
}

/// The fonts of a sequence of font-face matches (see `faces_fonts`).
#[verifier::rlimit(50)]
pub fn decode_fonts(faces: &Vec<Vec<String>>) -> (r: Result<Vec<Vec<u8>>, SvgError>)
    ensures
        match faces_fonts(texts_of(faces@)) {
            Ok(v) => r is Ok && bytes_of(r->Ok_0@) == v,
            Err(e) => r == Err::<Vec<Vec<u8>>, SvgError>(e),
        },
{
    let ghost all = texts_of(faces@);
    let mut fonts: Vec<Vec<u8>> = Vec::new();
    proof {
        assert(all.subrange(0, all.len() as int) =~= all);
        assert(bytes_of(fonts@) =~= Seq::<Seq<u8>>::empty());
        if let Ok(v) = faces_fonts(all) {
            assert(Seq::<Seq<u8>>::empty() + v =~= v);
        }
    }
    let mut i: usize = 0;
    while i < faces.len()
        invariant
            i <= faces@.len(),
            all == texts_of(faces@),
            faces_fonts(all) == after_fonts(bytes_of(fonts@), faces_fonts(all.subrange(i as int, all.len() as int))),
        decreases faces@.len() - i,
    {
        let ghost rest = all.subrange(i as int, all.len() as int);
        assert(rest[0] == all[i as int]);
        assert(rest.drop_first() =~= all.subrange(i + 1, all.len() as int));
        let face = &faces[i];
        assert(all[i as int] == face_texts(face@));
        let font = match decode_face(face) {
            Ok(f) => f,
            Err(e) => return Err(e),
        };
        let ghost before = bytes_of(fonts@);
        fonts.push(font);
        proof {
            assert(bytes_of(fonts@) =~= before.push(font@));
            if let Ok(tail) = faces_fonts(all.subrange(i + 1, all.len() as int)) {
                assert(before + (seq![font@] + tail) =~= before.push(font@) + tail);
            }
        }
        i = i + 1;
    }
    proof {
        assert(all.subrange(i as int, all.len() as int) =~= Seq::<Seq<Seq<char>>>::empty());
        assert(bytes_of(fonts@) + Seq::<Seq<u8>>::empty() =~= bytes_of(fonts@));
    }
    Ok(fonts)
}

/// The fonts of the font-face matches of `pattern` in one event: none unless it
/// is a CDATA section.
#[verifier::opaque]
pub open spec fn event_fonts(pattern: Seq<char>, e: XmlItem) -> Result<Seq<Seq<u8>>, SvgError> {
    match e {
        XmlItem::CData(t) => faces_fonts(captures_of(pattern, t)),
        _ => Ok(Seq::empty()),
    }
}

/// The fonts of the font-face matches of `pat` in one event (see `event_fonts`).
fn fonts_in_event(pat: &Pattern, e: &XmlEvent) -> (r: Result<Vec<Vec<u8>>, SvgError>)
    ensures
        match event_fonts(pat.source(), item_of(*e)) {
            Ok(v) => r is Ok && bytes_of(r->Ok_0@) == v,
            Err(x) => r == Err::<Vec<Vec<u8>>, SvgError>(x),
        },
{
    reveal(event_fonts);
    match e {
        XmlEvent::CData(text) => {
            let faces = capture_all(pat, text.as_str());
            decode_fonts(&faces)
        },
        _ => {
            assert(bytes_of(Seq::<Vec<u8>>::empty()) =~= Seq::<Seq<u8>>::empty());
            Ok(Vec::new())
        },
    }
}

proof fn lemma_scan_step(src: Seq<char>, b: Seq<u8>, k: int, bud: int, e: XmlItem)
    requires
        xml_event(b, k) == Some(e),
    ensures
        e is Eof ==> scanned_fonts(src, b, k, bud) == Ok::<Seq<Seq<u8>>, SvgError>(Seq::empty()),
        !(e is Eof) && bud <= 0 ==> scanned_fonts(src, b, k, bud) == Err::<Seq<Seq<u8>>, SvgError>(SvgError::Stalled),
        !(e is Eof) && bud > 0 ==> scanned_fonts(src, b, k, bud) == match event_fonts(src, e) {
            Err(x) => Err(x),
            Ok(fs) => after_fonts(fs, scanned_fonts(src, b, k + 1, bud - 1)),
        },
{
    reveal(scanned_fonts);
}

proof fn lemma_scan_fails(src: Seq<char>, b: Seq<u8>, k: int, bud: int)
    requires
        xml_event(b, k) is None,
    ensures
        scanned_fonts(src, b, k, bud) == Err::<Seq<Seq<u8>>, SvgError>(SvgError::Xml),
{
    reveal(scanned_fonts);
}

fn append_fonts(fonts: &mut Vec<Vec<u8>>, found: Vec<Vec<u8>>)
    ensures
        bytes_of(final(fonts)@) == bytes_of(old(fonts)@) + bytes_of(found@),
{
    let mut found = found;
    let ghost f0 = found@;
    fonts.append(&mut found);
    assert(bytes_of(fonts@) =~= bytes_of(old(fonts)@) + bytes_of(f0));
}

/// The fonts of the font-face matches of `pattern` in the CDATA sections among
/// events `k` on of `b`, in order, reading at most `budget` more events other than
/// the end; or the first failure: of the reader, of a match, or of the budget.
#[verifier::opaque]
pub open spec fn scanned_fonts(pattern: Seq<char>, b: Seq<u8>, k: int, budget: int) -> Result<
    Seq<Seq<u8>>,
    SvgError,
>
    decreases budget,
{
    match xml_event(b, k) {
        None => Err(SvgError::Xml),
        Some(XmlItem::Eof) => Ok(Seq::empty()),
        Some(e) => if budget <= 0 {
            Err(SvgError::Stalled)
        } else {
            match event_fonts(pattern, e) {
                Err(x) => Err(x),
                Ok(fs) => after_fonts(fs, scanned_fonts(pattern, b, k + 1, budget - 1)),
            }
        },
    }
}

/// The fonts that an SVG page embeds in font-face rules (`FONT_FACE_PATTERN`) of
/// its CDATA sections, in order, with their name tables patched (see
/// `scanned_fonts`).
#[verifier::rlimit(100)]
pub fn embedded_fonts(svg: &[u8]) -> (r: Result<Vec<Vec<u8>>, SvgError>)
    ensures
        !pattern_compiles(FONT_FACE_PATTERN@) ==> r == Err::<Vec<Vec<u8>>, SvgError>(SvgError::Pattern),
        pattern_compiles(FONT_FACE_PATTERN@) ==> match scanned_fonts(FONT_FACE_PATTERN@, svg@, 0, svg@.len() as int) {
            Ok(v) => r is Ok && bytes_of(r->Ok_0@) == v,
            Err(e) => r == Err::<Vec<Vec<u8>>, SvgError>(e),
        },
{
    let pat = match compile_pattern(FONT_FACE_PATTERN) {
        Some(p) => p,
        None => return Err(SvgError::Pattern),
    };
    let ghost b = svg@;
    let ghost src = FONT_FACE_PATTERN@;
    let mut stream = open_stream(svg);
    let mut fonts: Vec<Vec<u8>> = Vec::new();
    let mut budget: usize = svg.len();
    proof {
        assert(bytes_of(fonts@) =~= Seq::<Seq<u8>>::empty());
        if let Ok(v) = scanned_fonts(src, b, 0, b.len() as int) {
            assert(Seq::<Seq<u8>>::empty() + v =~= v);
        }
    }
    loop
        invariant_except_break
            scanned_fonts(src, b, 0, b.len() as int) == after_fonts(
                bytes_of(fonts@),
                scanned_fonts(src, b, stream.read(), budget as int),
            ),
        invariant
            b == svg@,
            stream.bytes() == b,
            pat.source() == src,
            pattern_compiles(src),
            src == FONT_FACE_PATTERN@,
        ensures
            scanned_fonts(src, b, 0, b.len() as int) == Ok::<Seq<Seq<u8>>, SvgError>(bytes_of(fonts@)),
        decreases budget,
    {
        let ghost k = stream.read();
        let ghost bud = budget as int;
        let event = match next_event(&mut stream) {
            Ok(e) => e,
            Err(_) => {
                proof {
                    lemma_scan_fails(src, b, k, bud);
                }
                return Err(SvgError::Xml);
            },
        };
        proof {
            lemma_scan_step(src, b, k, bud, item_of(event));
        }
        if let XmlEvent::Eof = event {
            assert(bytes_of(fonts@) + Seq::<Seq<u8>>::empty() =~= bytes_of(fonts@));
            break;
        }
        if budget == 0 {
            return Err(SvgError::Stalled);
        }
        budget = budget - 1;
        let ghost before = bytes_of(fonts@);
        let mut found = match fonts_in_event(&pat, &event) {
            Ok(f) => f,
            Err(e) => {
                assert(scanned_fonts(src, b, k, bud) == Err::<Seq<Seq<u8>>, SvgError>(e));
                return Err(e);
            },
        };
        let ghost added = bytes_of(found@);
        append_fonts(&mut fonts, found);
        proof {
            assert(stream.read() == k + 1 && budget as int == bud - 1);
            if let Ok(tail) = scanned_fonts(src, b, k + 1, bud - 1) {
                assert(before + (added + tail) =~= (before + added) + tail);
            }
        }
    }
    Ok(fonts)
}

} // verus!
