//! The top-level object for writing a PDF: its objects, pages, document
//! information and the trailer that ties them together.

use vstd::prelude::*;

use crate::bytes::{
    decimal, lemma_decimal_len_bound, lemma_text_bytes_ascii, push_bytes, push_decimal, push_str,
    push_zero_padded, text_bytes, zero_padded,
};
use crate::canvas::{lemma_font_numbers_distinct, Canvas};
use crate::clock::{creation_date, date_chars, is_clock_reading, is_date_of, TimeFields};
use crate::fonts::{font_resource_name, pdf_name_of, FontSource};
use crate::fonts::lemma_distinct_fonts_len;
use crate::objects::{
    lemma_object_bytes_len, lemma_object_starts_len, lemma_text_bytes_nonempty, lemma_objects_step, lemma_starts_object_appended,
    lemma_starts_object_extend, obj_header, object_bytes, object_starts, objects_bytes, starts_object,
};

verus! {

/// The object number of the document catalog.
pub const ROOT_OBJECT_ID: usize = 1;

/// The object number of the page tree.
pub const PAGES_OBJECT_ID: usize = 2;

/// The first bytes of every document: the version line, and a comment line
/// of four bytes above 127 that marks the file as binary.
pub open spec fn file_header() -> Seq<u8> {
    text_bytes("%PDF-1.7\n%"@) + seq![0xB5u8, 0xEDu8, 0xAEu8, 0xFBu8] + text_bytes("\n"@)
}

/// The key of document information entry `k`, in the order in which the
/// entries are written.
pub open spec fn info_key(k: int) -> Seq<char> {
    if k == 0 {
        "Author"@
    } else if k == 1 {
        "Creator"@
    } else if k == 2 {
        "Keywords"@
    } else if k == 3 {
        "Producer"@
    } else if k == 4 {
        "Subject"@
    } else {
        "Title"@
    }
}

/// The first bytes of a page object's content.
pub open spec fn page_object_start() -> Seq<u8> {
    text_bytes("<<  /Type /Page\n"@)
}

/// Object number `id` begins at `offset` in `doc`, and it is a page.
pub open spec fn is_page_object(doc: Seq<u8>, offset: nat, id: nat) -> bool {
    let h = obj_header(id).len();
    &&& starts_object(doc, offset, id)
    &&& offset + h + page_object_start().len() <= doc.len()
    &&& doc.subrange((offset + h) as int, (offset + h + page_object_start().len()) as int)
        == page_object_start()
}

/// The object recorded at `offset` begins there in `doc`.
pub open spec fn recorded_at(doc: Seq<u8>, offset: Option<usize>, id: nat) -> bool {
    match offset {
        Some(o) => starts_object(doc, o as nat, id),
        None => false,
    }
}

/// The page object recorded at `offset` begins there in `doc`.
pub open spec fn page_recorded_at(doc: Seq<u8>, offset: Option<usize>, id: nat) -> bool {
    match offset {
        Some(o) => is_page_object(doc, o as nat, id),
        None => false,
    }
}

/// The top-level object for writing a PDF.
///
/// The document is written to a byte buffer, object by object. Object 0 is
/// special in PDF; objects 1 and 2, the catalog and the page tree, are
/// written by `finish`.
pub struct Pdf {
    output: Vec<u8>,
    object_offsets: Vec<Option<usize>>,
    page_objects_ids: Vec<usize>,
    document_info: Vec<Option<String>>,
}

impl Pdf {
    /// The bytes written so far.
    pub closed spec fn bytes(&self) -> Seq<u8> {
        self.output@
    }

    /// Where each object begins, by object number; `None` for an object
    /// that is not written yet.
    pub closed spec fn offsets(&self) -> Seq<Option<usize>> {
        self.object_offsets@
    }

    /// The object numbers of the pages, in order.
    pub closed spec fn pages(&self) -> Seq<usize> {
        self.page_objects_ids@
    }

    /// The document information, one entry for each key of `info_key`.
    pub closed spec fn info(&self) -> Seq<Option<Seq<char>>> {
        self.document_info@.map_values(
            |e: Option<String>|
                match e {
                    Some(s) => Some(s@),
                    None => None,
                },
        )
    }

    /// Each object written so far begins where its offset says, later
    /// objects further on; each page number names a page object, in the
    /// order in which the pages were added; and the catalog and page tree
    /// are still to be written.
    #[verifier::opaque]
    pub closed spec fn well_formed(&self) -> bool {
        let offsets = self.offsets();
        &&& offsets.len() >= 3
        &&& offsets[0] is None
        &&& offsets[1] is None
        &&& offsets[2] is None
        &&& forall|i: int|
            3 <= i < offsets.len() ==> recorded_at(self.bytes(), #[trigger] offsets[i], i as nat)
        &&& forall|i: int, j: int|
            3 <= i < j < offsets.len() ==> (#[trigger] offsets[i])->0 < (#[trigger] offsets[j])->0
        &&& 2 * offsets.len() <= self.bytes().len()
        &&& self.document_info@.len() == 6
        &&& forall|k: int|
            0 <= k < self.pages().len() ==> {
                let p = #[trigger] self.pages()[k];
                &&& 3 <= p < offsets.len()
                &&& page_recorded_at(self.bytes(), offsets[p as int], p as nat)
            }
        &&& forall|k: int, l: int|
            0 <= k < l < self.pages().len() ==> #[trigger] self.pages()[k]
                < #[trigger] self.pages()[l]
    }

    /// What every valid document keeps: objects 0 to 2 are not written yet,
    /// every other object is written and begins where its offset says,
    /// inside what was written, the objects lie in the order of their
    /// numbers and take at least two bytes each, the pages are page objects
    /// other than 0 to 2 and come in increasing order of their numbers, and
    /// there is one information entry for each key.
    pub proof fn lemma_layout(&self)
        requires
            self.well_formed(),
        ensures
            self.offsets().len() >= 3,
            self.offsets()[0] is None,
            self.offsets()[1] is None,
            self.offsets()[2] is None,
            forall|i: int|
                3 <= i < self.offsets().len() ==> {
                    &&& #[trigger] self.offsets()[i] matches Some(o) && o < self.bytes().len()
                    &&& recorded_at(self.bytes(), self.offsets()[i], i as nat)
                },
            forall|i: int, j: int|
                3 <= i < j < self.offsets().len() ==> (#[trigger] self.offsets()[i])->0
                    < (#[trigger] self.offsets()[j])->0,
            forall|k: int|
                0 <= k < self.pages().len() ==> {
                    let p = #[trigger] self.pages()[k];
                    &&& 3 <= p < self.offsets().len()
                    &&& page_recorded_at(self.bytes(), self.offsets()[p as int], p as nat)
                },
            forall|k: int, l: int|
                0 <= k < l < self.pages().len() ==> #[trigger] self.pages()[k]
                    < #[trigger] self.pages()[l],
            2 * self.offsets().len() <= self.bytes().len(),
            self.info().len() == 6,
    {
        reveal(Pdf::well_formed);
        assert forall|i: int| 3 <= i < self.offsets().len() implies {
            &&& #[trigger] self.offsets()[i] matches Some(o) && o < self.bytes().len()
            &&& recorded_at(self.bytes(), self.offsets()[i], i as nat)
        } by {
            assert(recorded_at(self.bytes(), self.offsets()[i], i as nat));
            assert(decimal(i as nat).len() >= 1);
        }
    }

    /// Create a new PDF document: only the file header is written.
    pub fn new() -> (pdf: Pdf)
        ensures
            pdf.well_formed(),
            pdf.bytes() == file_header(),
            pdf.offsets() == seq![None::<usize>, None, None],
            pdf.pages() == Seq::<usize>::empty(),
            pdf.info() == Seq::new(6, |k: int| None::<Seq<char>>),
    {
        let mut output: Vec<u8> = Vec::new();
        push_str(&mut output, "%PDF-1.7\n%");
        output.push(0xB5u8);
        output.push(0xEDu8);
        output.push(0xAEu8);
        output.push(0xFBu8);
        push_str(&mut output, "\n");
        let mut object_offsets: Vec<Option<usize>> = Vec::new();
        object_offsets.push(None);
        object_offsets.push(None);
        object_offsets.push(None);
        let mut document_info: Vec<Option<String>> = Vec::new();
        let mut k: usize = 0;
        while k < 6
            invariant
                k <= 6,
                document_info@.len() == k,
                forall|j: int| 0 <= j < k ==> document_info@[j] is None,
            decreases 6 - k,
        {
            document_info.push(None);
            k = k + 1;
        }
        let pdf = Pdf { output, object_offsets, page_objects_ids: Vec::new(), document_info };
        proof {
            reveal(Pdf::well_formed);
            reveal_strlit("%PDF-1.7\n%");
            reveal_strlit("\n");
            lemma_text_bytes_nonempty("%PDF-1.7\n%"@);
            lemma_text_bytes_nonempty("\n"@);
        }
        assert(pdf.bytes() =~= file_header());
        assert(pdf.offsets() =~= seq![None::<usize>, None, None]);
        assert(pdf.pages() =~= Seq::<usize>::empty());
        assert(pdf.info() =~= Seq::new(6, |k: int| None::<Seq<char>>));
        pdf
    }

    /// Sets document information entry `k` to `value`.
    fn set_info(&mut self, k: usize, value: &str)
        requires
            old(self).well_formed(),
            k < 6,
        ensures
            final(self).well_formed(),
            final(self).bytes() == old(self).bytes(),
            final(self).offsets() == old(self).offsets(),
            final(self).pages() == old(self).pages(),
            final(self).info() == old(self).info().update(k as int, Some(value@)),
    {
        proof {
            reveal(Pdf::well_formed);
        }
        self.document_info.set(k, Some(value.to_owned()));
        assert(self.bytes() == old(self).bytes());
        assert(self.offsets() == old(self).offsets());
        assert(self.pages() == old(self).pages());
        assert(self.info() =~= old(self).info().update(k as int, Some(value@)));
    }

    /// Set metadata: the document's title.
    pub fn set_title(&mut self, title: &str)
        requires
            old(self).well_formed(),
        ensures
            final(self).well_formed(),
            final(self).bytes() == old(self).bytes(),
            final(self).offsets() == old(self).offsets(),
            final(self).pages() == old(self).pages(),
            final(self).info() == old(self).info().update(5, Some(title@)),
    {
        self.set_info(5, title);
    }

    /// Set metadata: the name of the person who created the document.
    pub fn set_author(&mut self, author: &str)
        requires
            old(self).well_formed(),
        ensures
            final(self).well_formed(),
            final(self).bytes() == old(self).bytes(),
            final(self).offsets() == old(self).offsets(),
            final(self).pages() == old(self).pages(),
            final(self).info() == old(self).info().update(0, Some(author@)),
    {
        self.set_info(0, author);
    }

    /// Set metadata: the subject of the document.
    pub fn set_subject(&mut self, subject: &str)
        requires
            old(self).well_formed(),
        ensures
            final(self).well_formed(),
            final(self).bytes() == old(self).bytes(),
            final(self).offsets() == old(self).offsets(),
            final(self).pages() == old(self).pages(),
            final(self).info() == old(self).info().update(4, Some(subject@)),
    {
        self.set_info(4, subject);
    }

    /// Set metadata: keywords associated with the document.
    pub fn set_keywords(&mut self, keywords: &str)
        requires
            old(self).well_formed(),
        ensures
            final(self).well_formed(),
            final(self).bytes() == old(self).bytes(),
            final(self).offsets() == old(self).offsets(),
            final(self).pages() == old(self).pages(),
            final(self).info() == old(self).info().update(2, Some(keywords@)),
    {
        self.set_info(2, keywords);
    }

    /// Set metadata: If the document was converted to PDF from another
    /// format, the name of the conforming product that created the original
    /// document from which it was converted.
    pub fn set_creator(&mut self, creator: &str)
        requires
            old(self).well_formed(),
        ensures
            final(self).well_formed(),
            final(self).bytes() == old(self).bytes(),
            final(self).offsets() == old(self).offsets(),
            final(self).pages() == old(self).pages(),
            final(self).info() == old(self).info().update(1, Some(creator@)),
    {
        self.set_info(1, creator);
    }

    /// Set metadata: If the document was converted to PDF from another
    /// format, the name of the conforming product that converted it to PDF.
    pub fn set_producer(&mut self, producer: &str)
        requires
            old(self).well_formed(),
        ensures
            final(self).well_formed(),
            final(self).bytes() == old(self).bytes(),
            final(self).offsets() == old(self).offsets(),
            final(self).pages() == old(self).pages(),
            final(self).info() == old(self).info().update(3, Some(producer@)),
    {
        self.set_info(3, producer);
    }

    /// Return the current write position in the output.
    fn tell(&self) -> (pos: usize)
        ensures
            pos == self.bytes().len(),
    {
        self.output.len()
    }

    /// Writes object number `id` with content `body` at the end of the
    /// output, and returns where it begins.
    fn write_object(&mut self, id: usize, body: &[u8]) -> (offset: usize)
        ensures
            offset == old(self).bytes().len(),
            final(self).bytes() == old(self).bytes() + object_bytes(id as nat, body@),
            final(self).offsets() == old(self).offsets(),
            final(self).pages() == old(self).pages(),
            final(self).document_info@ == old(self).document_info@,
    {
        let offset = self.tell();
        push_decimal(&mut self.output, id as u64);
        push_str(&mut self.output, " 0 obj\n");
        push_bytes(&mut self.output, body);
        push_str(&mut self.output, "endobj\n");
        assert(self.bytes() =~= old(self).bytes() + object_bytes(id as nat, body@));
        offset
    }

    /// Writes object number `id`, which is reserved and not written yet,
    /// with content `body`.
    fn write_object_with_id(&mut self, id: usize, body: &[u8])
        requires
            id < old(self).offsets().len(),
            old(self).offsets()[id as int] is None,
        ensures
            final(self).bytes() == old(self).bytes() + object_bytes(id as nat, body@),
            final(self).offsets() == old(self).offsets().update(
                id as int,
                Some(old(self).bytes().len() as usize),
            ),
            final(self).pages() == old(self).pages(),
            final(self).document_info@ == old(self).document_info@,
    {
        let offset = self.write_object(id, body);
        self.object_offsets.set(id, Some(offset));
    }

    /// Writes the next object, with content `body`, and returns its number.
    fn write_new_object(&mut self, body: &[u8]) -> (id: usize)
        requires
            old(self).well_formed(),
        ensures
            final(self).well_formed(),
            id == old(self).offsets().len(),
            final(self).bytes() == old(self).bytes() + object_bytes(id as nat, body@),
            final(self).offsets() == old(self).offsets().push(
                Some(old(self).bytes().len() as usize),
            ),
            old(self).bytes().len() <= usize::MAX,
            final(self).pages() == old(self).pages(),
            final(self).info() == old(self).info(),
    {
        proof {
            reveal(Pdf::well_formed);
        }
        let id = self.object_offsets.len();
        let offset = self.write_object(id, body);
        self.object_offsets.push(Some(offset));
        proof {
            lemma_object_bytes_len(id as nat, body@);
            let old_bytes = old(self).bytes();
            let new_bytes = self.bytes();
            let more = object_bytes(id as nat, body@);
            assert forall|i: int| 3 <= i < self.offsets().len() implies recorded_at(
                new_bytes,
                #[trigger] self.offsets()[i],
                i as nat,
            ) by {
                if i < id {
                    let o = old(self).offsets()[i]->0;
                    lemma_starts_object_extend(old_bytes, more, o as nat, i as nat);
                } else {
                    lemma_starts_object_appended(old_bytes, id as nat, body@, Seq::empty());
                    assert(old_bytes + more + Seq::<u8>::empty() =~= new_bytes);
                }
            }
            assert forall|k: int| 0 <= k < self.pages().len() implies {
                let p = #[trigger] self.pages()[k];
                &&& 3 <= p < self.offsets().len()
                &&& page_recorded_at(new_bytes, self.offsets()[p as int], p as nat)
            } by {
                let p = self.pages()[k];
                let o = old(self).offsets()[p as int]->0;
                lemma_page_object_extend(old_bytes, more, o as nat, p as nat);
            }
            assert(self.info() =~= old(self).info());
        }
        id
    }
}

/// The content stream of a page: the colour spaces, then what was drawn.
pub open spec fn content_stream(content: Seq<u8>) -> Seq<u8> {
    text_bytes("/DeviceRGB cs /DeviceRGB CS\n"@) + content
}

/// The page contents object number `c`: its length is object `c + 1`.
pub open spec fn contents_body(c: nat, stream: Seq<u8>) -> Seq<u8> {
    text_bytes("<<  /Length "@) + decimal(c + 1) + text_bytes(" 0 R\n"@) + text_bytes(">>\n"@)
        + text_bytes("stream\n"@) + stream + text_bytes("endstream\n"@)
}

/// The object that holds the length of a content stream.
pub open spec fn length_body(n: nat) -> Seq<u8> {
    decimal(n) + text_bytes("\n"@)
}

/// The font dictionary of a built-in font.
pub open spec fn font_body(font: FontSource) -> Seq<u8> {
    text_bytes("<< /Type /Font /Subtype /Type1 /BaseFont /"@) + text_bytes(pdf_name_of(font))
        + text_bytes(" /Encoding /WinAnsiEncoding >>\n"@)
}

/// The font resources of a page: `/F`i and the object number of font i,
/// for the first `k` fonts, whose objects are numbered from `first_id`.
pub open spec fn font_entries(k: nat, first_id: nat) -> Seq<u8>
    decreases k,
{
    if k == 0 {
        Seq::empty()
    } else {
        font_entries((k - 1) as nat, first_id) + font_resource_name((k - 1) as nat) + text_bytes(
            " "@,
        ) + decimal((first_id + k - 1) as nat) + text_bytes(" 0 R "@)
    }
}

/// The page object of a page whose contents are object `c`, whose
/// `nfonts` fonts are objects `c + 2` on, and whose media box is `width`
/// by `height`.
pub open spec fn page_body(c: nat, nfonts: nat, width: Seq<char>, height: Seq<char>) -> Seq<u8> {
    page_object_start() + text_bytes("    /Parent "@) + decimal(2) + text_bytes(" 0 R\n"@)
        + text_bytes("    /Resources << /Font << "@) + font_entries(nfonts, c + 2) + text_bytes(
        ">> >>\n"@,
    ) + text_bytes("    /MediaBox [ 0 0 "@) + text_bytes(width) + text_bytes(" "@) + text_bytes(
        height,
    ) + text_bytes(" ]\n"@) + text_bytes("    /Contents "@) + decimal(c) + text_bytes(" 0 R\n"@)
        + text_bytes(">>\n"@)
}

/// The objects of a page whose first object is number `c`, in the order in
/// which they are written: the contents, their length, the fonts, the page.
#[verifier::opaque]
pub open spec fn page_bodies(
    c: nat,
    content: Seq<u8>,
    fonts: Seq<FontSource>,
    width: Seq<char>,
    height: Seq<char>,
) -> Seq<Seq<u8>> {
    let stream = content_stream(content);
    seq![contents_body(c, stream), length_body(stream.len())] + fonts.map_values(
        |f: FontSource| font_body(f),
    ) + seq![page_body(c, fonts.len(), width, height)]
}

/// The objects of a page one by one. The contents object refers to object
/// `c + 1` for its length, and object `c + 1` holds exactly the number of
/// bytes between `stream` and `endstream`; the font dictionaries follow in
/// the order of the fonts' numbers, and the page comes last.
pub proof fn lemma_page_bodies(
    c: nat,
    content: Seq<u8>,
    fonts: Seq<FontSource>,
    width: Seq<char>,
    height: Seq<char>,
)
    ensures
        ({
            let bodies = page_bodies(c, content, fonts, width, height);
            &&& bodies.len() == fonts.len() + 3
            &&& bodies[0] == contents_body(c, content_stream(content))
            &&& bodies[1] == length_body(content_stream(content).len())
            &&& forall|k: int| 0 <= k < fonts.len() ==> #[trigger] bodies[k + 2] == font_body(fonts[k])
            &&& bodies[fonts.len() + 2 as int] == page_body(c, fonts.len(), width, height)
        }),
{
    reveal(page_bodies);
}

impl FontSource {
    /// The font's dictionary.
    fn object_body(&self) -> (body: Vec<u8>)
        ensures
            body@ == font_body(*self),
    {
        let mut body: Vec<u8> = Vec::new();
        push_str(&mut body, "<< /Type /Font /Subtype /Type1 /BaseFont /");
        push_str(&mut body, self.name_str());
        push_str(&mut body, " /Encoding /WinAnsiEncoding >>\n");
        assert(body@ =~= font_body(*self));
        body
    }

    /// Writes this font's dictionary as the next object of `pdf` and returns
    /// its number.
    fn write_object(&self, pdf: &mut Pdf) -> (id: usize)
        requires
            old(pdf).well_formed(),
        ensures
            final(pdf).well_formed(),
            id == old(pdf).offsets().len(),
            final(pdf).bytes() == old(pdf).bytes() + object_bytes(id as nat, font_body(*self)),
            final(pdf).offsets() == old(pdf).offsets().push(Some(old(pdf).bytes().len() as usize)),
            final(pdf).pages() == old(pdf).pages(),
            final(pdf).info() == old(pdf).info(),
    {
        let body = self.object_body();
        pdf.write_new_object(body.as_slice())
    }
}

/// The bytes of `contents_body(c, stream)`.
fn contents_body_bytes(c: usize, stream: &[u8]) -> (body: Vec<u8>)
    requires
        c + 1 <= usize::MAX,
    ensures
        body@ == contents_body(c as nat, stream@),
{
    let mut body: Vec<u8> = Vec::new();
    push_str(&mut body, "<<  /Length ");
    push_decimal(&mut body, (c + 1) as u64);
    push_str(&mut body, " 0 R\n");
    push_str(&mut body, ">>\n");
    push_str(&mut body, "stream\n");
    push_bytes(&mut body, stream);
    push_str(&mut body, "endstream\n");
    assert(body@ =~= contents_body(c as nat, stream@));
    body
}

/// The bytes of the page object of a page whose contents are object `c` and
/// whose fonts are those of `canvas`.
fn page_body_bytes(c: usize, canvas: &Canvas, width: &str, height: &str) -> (body: Vec<u8>)
    requires
        canvas.well_formed(),
        c + canvas.font_sources().len() + 3 <= usize::MAX,
    ensures
        body@ == page_body(c as nat, canvas.font_sources().len(), width@, height@),
{
    proof {
        canvas.lemma_fonts();
    }
    let nfonts = canvas.fonts.len();
    let mut page: Vec<u8> = Vec::new();
    push_str(&mut page, "<<  /Type /Page\n");
    push_str(&mut page, "    /Parent ");
    push_decimal(&mut page, PAGES_OBJECT_ID as u64);
    push_str(&mut page, " 0 R\n");
    push_str(&mut page, "    /Resources << /Font << ");
    let ghost entries_start = page@;
    let mut k: usize = 0;
    while k < nfonts
        invariant
            k <= nfonts,
            nfonts == canvas.fonts@.len(),
            forall|i: int| 0 <= i < canvas.fonts@.len() ==> #[trigger] canvas.fonts@[i].1.number() == i,
            c + nfonts + 3 <= usize::MAX,
            page@ == entries_start + font_entries(k as nat, (c + 2) as nat),
        decreases nfonts - k,
    {
        canvas.fonts[k].1.write_name(&mut page);
        push_str(&mut page, " ");
        push_decimal(&mut page, (c + 2 + k) as u64);
        push_str(&mut page, " 0 R ");
        assert(canvas.fonts@[k as int].1.number() == k);
        assert(page@ =~= entries_start + font_entries((k + 1) as nat, (c + 2) as nat));
        k = k + 1;
    }
    push_str(&mut page, ">> >>\n");
    push_str(&mut page, "    /MediaBox [ 0 0 ");
    push_str(&mut page, width);
    push_str(&mut page, " ");
    push_str(&mut page, height);
    push_str(&mut page, " ]\n");
    push_str(&mut page, "    /Contents ");
    push_decimal(&mut page, c as u64);
    push_str(&mut page, " 0 R\n");
    push_str(&mut page, ">>\n");
    assert(page@ =~= page_body(c as nat, nfonts as nat, width@, height@));
    page
}

impl Pdf {
    /// Records that the object just written, at the end of `bodies.take(k)`,
    /// is the `k`-th of the objects of `bodies`.
    proof fn lemma_written_step(
        self,
        before: Pdf,
        b0: Seq<u8>,
        o0: Seq<Option<usize>>,
        c: nat,
        bodies: Seq<Seq<u8>>,
        k: int,
    )
        requires
            0 <= k < bodies.len(),
            before.bytes() == b0 + objects_bytes(c, bodies.take(k)),
            before.offsets() == o0 + object_starts(b0.len(), c, bodies.take(k)),
            self.bytes() == before.bytes() + object_bytes((c + k) as nat, bodies[k]),
            self.offsets() == before.offsets().push(Some(before.bytes().len() as usize)),
        ensures
            self.bytes() == b0 + objects_bytes(c, bodies.take(k + 1)),
            self.offsets() == o0 + object_starts(b0.len(), c, bodies.take(k + 1)),
    {
        lemma_objects_step(b0.len(), c, bodies, k);
        assert(self.bytes() =~= b0 + objects_bytes(c, bodies.take(k + 1)));
        assert(self.offsets() =~= o0 + object_starts(b0.len(), c, bodies.take(k + 1)));
    }

    /// Writes `body`, the `k`-th of the objects of `bodies`, numbered from
    /// `c`, that are being written from where the output was `b0`.
    fn write_step(
        &mut self,
        body: &[u8],
        Ghost(b0): Ghost<Seq<u8>>,
        Ghost(o0): Ghost<Seq<Option<usize>>>,
        Ghost(c): Ghost<nat>,
        Ghost(bodies): Ghost<Seq<Seq<u8>>>,
        Ghost(k): Ghost<int>,
    ) -> (id: usize)
        requires
            old(self).well_formed(),
            0 <= k < bodies.len(),
            body@ == bodies[k],
            old(self).offsets().len() == c + k,
            old(self).bytes() == b0 + objects_bytes(c, bodies.take(k)),
            old(self).offsets() == o0 + object_starts(b0.len(), c, bodies.take(k)),
        ensures
            final(self).well_formed(),
            id == c + k,
            final(self).bytes() == b0 + objects_bytes(c, bodies.take(k + 1)),
            final(self).offsets() == o0 + object_starts(b0.len(), c, bodies.take(k + 1)),
            final(self).offsets().len() == c + k + 1,
            final(self).offsets()[c + k] matches Some(o) && o == old(self).bytes().len(),
            final(self).bytes() == old(self).bytes() + object_bytes((c + k) as nat, body@),
            final(self).pages() == old(self).pages(),
            final(self).info() == old(self).info(),
    {
        let ghost before = *self;
        let id = self.write_new_object(body);
        proof {
            self.lemma_written_step(before, b0, o0, c, bodies, k);
        }
        id
    }

    /// Writes the font dictionaries of the fonts of `canvas`, the objects
    /// `2` on of `bodies`.
    fn write_fonts(
        &mut self,
        canvas: &Canvas,
        Ghost(b0): Ghost<Seq<u8>>,
        Ghost(o0): Ghost<Seq<Option<usize>>>,
        Ghost(bodies): Ghost<Seq<Seq<u8>>>,
    )
        requires
            old(self).well_formed(),
            canvas.well_formed(),
            old(self).offsets().len() == o0.len() + 2,
            o0.len() + canvas.font_sources().len() + 3 <= usize::MAX,
            bodies.len() == canvas.font_sources().len() + 3,
            forall|k: int|
                0 <= k < canvas.font_sources().len() ==> #[trigger] bodies[k + 2] == font_body(
                    canvas.font_sources()[k],
                ),
            old(self).bytes() == b0 + objects_bytes(o0.len(), bodies.take(2)),
            old(self).offsets() == o0 + object_starts(b0.len(), o0.len(), bodies.take(2)),
        ensures
            final(self).well_formed(),
            final(self).bytes() == b0 + objects_bytes(
                o0.len(),
                bodies.take(canvas.font_sources().len() + 2 as int),
            ),
            final(self).offsets() == o0 + object_starts(
                b0.len(),
                o0.len(),
                bodies.take(canvas.font_sources().len() + 2 as int),
            ),
            final(self).offsets().len() == o0.len() + canvas.font_sources().len() + 2,
            final(self).pages() == old(self).pages(),
            final(self).info() == old(self).info(),
    {
        proof {
            canvas.lemma_fonts();
        }
        let ghost c = o0.len();
        let nfonts = canvas.fonts.len();
        let mut k: usize = 0;
        while k < nfonts
            invariant
                k <= nfonts,
                nfonts == canvas.font_sources().len(),
                canvas.well_formed(),
                c == o0.len(),
                bodies.len() == nfonts + 3,
                forall|j: int|
                    0 <= j < canvas.font_sources().len() ==> #[trigger] bodies[j + 2] == font_body(
                        canvas.font_sources()[j],
                    ),
                self.well_formed(),
                self.bytes() == b0 + objects_bytes(c, bodies.take(k + 2)),
                self.offsets() == o0 + object_starts(b0.len(), c, bodies.take(k + 2)),
                self.offsets().len() == c + k + 2,
                self.pages() == old(self).pages(),
                self.info() == old(self).info(),
            decreases nfonts - k,
        {
            proof {
                canvas.lemma_fonts();
            }
            let ghost before = *self;
            let font_object_id = canvas.fonts[k].0.write_object(self);
            proof {
                self.lemma_written_step(before, b0, o0, c, bodies, k + 2);
            }
            k = k + 1;
        }
    }

    /// Create a new page in the PDF document.
    ///
    /// The page will be `width` x `height` points large (the two numbers as
    /// they are to be written), and `canvas` holds the content of the page
    /// and the fonts that it uses. The page's objects are written in order:
    /// the content stream, its length, one dictionary for each font, and the
    /// page itself.
    pub fn render_page(&mut self, width: &str, height: &str, canvas: Canvas)
        requires
            old(self).well_formed(),
            canvas.well_formed(),
        ensures
            final(self).well_formed(),
            final(self).bytes() == old(self).bytes() + objects_bytes(
                old(self).offsets().len() as nat,
                page_bodies(
                    old(self).offsets().len() as nat,
                    canvas.bytes(),
                    canvas.font_sources(),
                    width@,
                    height@,
                ),
            ),
            final(self).offsets() == old(self).offsets() + object_starts(
                old(self).bytes().len(),
                old(self).offsets().len() as nat,
                page_bodies(
                    old(self).offsets().len() as nat,
                    canvas.bytes(),
                    canvas.font_sources(),
                    width@,
                    height@,
                ),
            ),
            final(self).offsets().len() == old(self).offsets().len() + canvas.font_sources().len()
                + 3,
            final(self).pages() == old(self).pages().push(
                (old(self).offsets().len() + canvas.font_sources().len() + 2) as usize,
            ),
            final(self).info() == old(self).info(),
    {
        let c = self.object_offsets.len();
        let nfonts = canvas.fonts.len();
        let ghost fonts = canvas.font_sources();
        let ghost bodies = page_bodies(c as nat, canvas.bytes(), fonts, width@, height@);
        let ghost b0 = self.bytes();
        let ghost o0 = self.offsets();
        proof {
            canvas.lemma_fonts();
            lemma_page_bodies(c as nat, canvas.bytes(), fonts, width@, height@);
            self.lemma_layout();
            lemma_font_numbers_distinct(&canvas);
            lemma_distinct_fonts_len(fonts);
        }
        // There are at most half as many objects as bytes written, and at
        // most fourteen fonts, so the page's object numbers fit.
        let written = self.tell();
        assert(2 * c <= written);
        assert(c + nfonts + 3 <= usize::MAX);
        assert(fonts.len() == nfonts);
        assert(bodies.len() == nfonts + 3);
        assert(self.bytes() =~= b0 + objects_bytes(c as nat, bodies.take(0)));
        assert(self.offsets() =~= o0 + object_starts(b0.len(), c as nat, bodies.take(0)));

        // The content stream, and the object that holds it.
        let mut stream: Vec<u8> = Vec::new();
        push_str(&mut stream, "/DeviceRGB cs /DeviceRGB CS\n");
        push_bytes(&mut stream, canvas.as_bytes());
        assert(stream@ =~= content_stream(canvas.bytes()));
        let body = contents_body_bytes(c, stream.as_slice());
        assert(body@ == bodies[0]);
        let contents_object_id = self.write_step(
            body.as_slice(),
            Ghost(b0),
            Ghost(o0),
            Ghost(c as nat),
            Ghost(bodies),
            Ghost(0),
        );

        // The length of the content stream.
        let mut length: Vec<u8> = Vec::new();
        push_decimal(&mut length, stream.len() as u64);
        push_str(&mut length, "\n");
        assert(length@ =~= bodies[1]);
        let length_object_id = self.write_step(
            length.as_slice(),
            Ghost(b0),
            Ghost(o0),
            Ghost(c as nat),
            Ghost(bodies),
            Ghost(1),
        );

        // The fonts.
        self.write_fonts(&canvas, Ghost(b0), Ghost(o0), Ghost(bodies));

        // The page.
        let page = page_body_bytes(contents_object_id, &canvas, width, height);
        assert(page@ == bodies[nfonts + 2]);
        let ghost before = self.bytes();
        let page_object_id = self.write_step(
            page.as_slice(),
            Ghost(b0),
            Ghost(o0),
            Ghost(c as nat),
            Ghost(bodies),
            Ghost(nfonts + 2),
        );
        proof {
            assert(bodies.take(nfonts + 3) =~= bodies);
            lemma_object_starts_len(b0.len(), c as nat, bodies);
        }
        proof {
            lemma_page_body_start(contents_object_id as nat, nfonts as nat, width@, height@);
            assert(forall|k: int| 0 <= k < self.pages().len() ==> #[trigger] self.pages()[k] < c);
        }
        self.add_page(page_object_id, Ghost(before), Ghost(page@));
    }

    /// Some document information is set.
    fn has_document_info(&self) -> (has: bool)
        requires
            self.document_info@.len() == 6,
        ensures
            has == has_info(self.info()),
    {
        let mut k: usize = 0;
        while k < 6
            invariant
                k <= 6,
                self.document_info@.len() == 6,
                forall|j: int| 0 <= j < k ==> self.document_info@[j] is None,
            decreases 6 - k,
        {
            if self.document_info[k].is_some() {
                assert(self.info()[k as int] is Some);
                return true;
            }
            k = k + 1;
        }
        assert forall|j: int| 0 <= j < self.info().len() implies !(#[trigger] self.info()[j] is Some) by {
            assert(self.document_info@[j] is None);
        }
        false
    }

    /// The bytes of the document information dictionary, with the creation
    /// date `date` where there is one.
    fn info_body_bytes(&self, date: Option<&str>) -> (body: Vec<u8>)
        requires
            self.document_info@.len() == 6,
        ensures
            body@ == info_body(self.info(), opt_chars(date)),
    {
        let mut body: Vec<u8> = Vec::new();
        push_str(&mut body, "<<");
        let ghost start = body@;
        let mut k: usize = 0;
        while k < 6
            invariant
                k <= 6,
                self.document_info@.len() == 6,
                body@ == start + info_entries(self.info().take(k as int)),
            decreases 6 - k,
        {
            let ghost before = body@;
            match &self.document_info[k] {
                Some(value) => {
                    push_str(&mut body, " /");
                    push_str(&mut body, info_key_str(k));
                    push_str(&mut body, " (");
                    push_str(&mut body, value.as_str());
                    push_str(&mut body, ")\n");
                },
                None => {},
            }
            assert(self.info().take(k as int + 1).drop_last() =~= self.info().take(k as int));
            assert(body@ =~= start + info_entries(self.info().take(k as int + 1)));
            k = k + 1;
        }
        assert(self.info().take(6) =~= self.info());
        let ghost mid = body@;
        match date {
            Some(d) => {
                push_str(&mut body, " /CreationDate (D:");
                push_str(&mut body, d);
                push_str(&mut body, ")");
                push_str(&mut body, " /ModDate (D:");
                push_str(&mut body, d);
                push_str(&mut body, ")");
            },
            None => {},
        }
        assert(body@ =~= mid + date_entries(opt_chars(date)));
        push_str(&mut body, ">>\n");
        assert(body@ =~= info_body(self.info(), opt_chars(date)));
        body
    }

    /// Write out the document trailer, with `creation_date` as the creation
    /// and modification date where there is one, and return the whole
    /// document.
    ///
    /// The trailer consists of the pages object, the document information
    /// where any is set, the root object, the xref list, the trailer object
    /// and the startxref position.
    pub fn finish_with_date(self, creation_date: Option<&str>) -> (doc: Vec<u8>)
        requires
            self.well_formed(),
        ensures
            doc@ == finished_document(
                self.bytes(),
                self.offsets(),
                self.pages(),
                self.info(),
                opt_chars(creation_date),
            ),
    {
        let ghost b0 = self.bytes();
        let ghost o0 = self.offsets();
        let ghost p0 = self.pages();
        let ghost i0 = self.info();
        let ghost date = opt_chars(creation_date);
        proof {
            self.lemma_layout();
            reveal(Pdf::well_formed);
        }
        let mut pdf = self;

        // The page tree.
        let pages = pages_body_bytes(&pdf.page_objects_ids);
        pdf.write_object_with_id(PAGES_OBJECT_ID, pages.as_slice());
        assert(pdf.bytes() == with_pages(b0, p0));

        // The document information.
        let info_id = if pdf.has_document_info() {
            let info = pdf.info_body_bytes(creation_date);
            let id = pdf.object_offsets.len();
            let offset = pdf.write_object(id, info.as_slice());
            pdf.object_offsets.push(Some(offset));
            Some(id)
        } else {
            None
        };
        assert(pdf.bytes() == with_info(b0, o0, p0, i0, date));

        // The catalog.
        let catalog = catalog_body_bytes();
        pdf.write_object_with_id(ROOT_OBJECT_ID, catalog.as_slice());
        assert(pdf.bytes() == with_catalog(b0, o0, p0, i0, date));
        assert(pdf.offsets() =~= final_offsets(b0, o0, p0, i0, date));

        // The cross-reference table and the trailer.
        let startxref = pdf.tell();
        push_xref_table(&mut pdf.output, &pdf.object_offsets);
        push_trailer_dict(&mut pdf.output, pdf.object_offsets.len(), info_id, startxref);
        assert(pdf.bytes() =~= finished_document(b0, o0, p0, i0, date));
        pdf.output
    }

    /// Write out the document trailer, with the current local time as the
    /// creation and modification date, and return the whole document.
    /// The date is whatever the clock gives, so the result is stated for
    /// the date, or the absence of one, that `format_date` makes of some
    /// reading of the clock: there is a date unless the year or the zone
    /// offset of that reading cannot be written.
    pub fn finish(self) -> (doc: Vec<u8>)
        requires
            self.well_formed(),
        ensures
            exists|date: Option<Seq<char>>, tm: TimeFields|
                #![trigger finished_document(self.bytes(), self.offsets(), self.pages(), self.info(), date), is_date_of(tm, date)]
                is_clock_reading(tm) && is_date_of(tm, date) && doc@ == finished_document(
                    self.bytes(),
                    self.offsets(),
                    self.pages(),
                    self.info(),
                    date,
                ),
    {
        let ghost b0 = self.bytes();
        let ghost o0 = self.offsets();
        let ghost p0 = self.pages();
        let ghost i0 = self.info();
        let date = creation_date();
        let ghost tm = choose|tm: TimeFields|
            is_clock_reading(tm) && #[trigger] is_date_of(tm, date_chars(date));
        match date {
            Some(d) => {
                let doc = self.finish_with_date(Some(d.as_str()));
                assert(is_date_of(tm, Some(d@)));
                assert(doc@ == finished_document(b0, o0, p0, i0, Some(d@)));
                doc
            },
            None => {
                let doc = self.finish_with_date(None);
                assert(doc@ == finished_document(b0, o0, p0, i0, None));
                doc
            },
        }
    }

    /// Records object `id`, the last one written, whose content is `body`,
    /// as the next page.
    fn add_page(&mut self, id: usize, Ghost(prefix): Ghost<Seq<u8>>, Ghost(body): Ghost<Seq<u8>>)
        requires
            old(self).well_formed(),
            3 <= id,
            id + 1 == old(self).offsets().len(),
            forall|k: int| 0 <= k < old(self).pages().len() ==> #[trigger] old(self).pages()[k] < id,
            old(self).offsets()[id as int] matches Some(o) && o == prefix.len(),
            old(self).bytes() == prefix + object_bytes(id as nat, body),
            page_object_start().len() <= body.len(),
            body.subrange(0, page_object_start().len() as int) == page_object_start(),
        ensures
            final(self).well_formed(),
            final(self).bytes() == old(self).bytes(),
            final(self).offsets() == old(self).offsets(),
            final(self).pages() == old(self).pages().push(id),
            final(self).info() == old(self).info(),
    {
        proof {
            reveal(Pdf::well_formed);
        }
        self.page_objects_ids.push(id);
        proof {
            lemma_page_object_appended(prefix, id as nat, body, Seq::empty());
            assert(prefix + object_bytes(id as nat, body) + Seq::<u8>::empty() =~= self.bytes());
            assert forall|j: int| 0 <= j < self.pages().len() implies {
                let p = #[trigger] self.pages()[j];
                &&& 3 <= p < self.offsets().len()
                &&& page_recorded_at(self.bytes(), self.offsets()[p as int], p as nat)
            } by {
                if j < old(self).pages().len() {
                    assert(self.pages()[j] == old(self).pages()[j]);
                } else {
                    assert(self.pages()[j] == id);
                }
            }
            assert forall|k: int, l: int| 0 <= k < l < self.pages().len() implies #[trigger] self.pages()[k]
                < #[trigger] self.pages()[l] by {
                assert(self.pages()[k] == old(self).pages()[k]);
                if l < old(self).pages().len() {
                    assert(self.pages()[l] == old(self).pages()[l]);
                }
            }
            assert(self.info() =~= old(self).info());
        }
    }
}

/// A page object's content begins as a page.
pub proof fn lemma_page_body_start(c: nat, nfonts: nat, width: Seq<char>, height: Seq<char>)
    ensures
        page_object_start().len() <= page_body(c, nfonts, width, height).len(),
        page_body(c, nfonts, width, height).subrange(0, page_object_start().len() as int)
            == page_object_start(),
{
    let b = page_body(c, nfonts, width, height);
    let rest = b.subrange(page_object_start().len() as int, b.len() as int);
    assert(b =~= page_object_start() + rest);
    assert(b.subrange(0, page_object_start().len() as int) =~= page_object_start());
}

/// The list of kids of the page tree: `id 0 R` for each page.
pub open spec fn kids(pages: Seq<usize>) -> Seq<u8>
    decreases pages.len(),
{
    if pages.len() == 0 {
        Seq::empty()
    } else {
        kids(pages.drop_last()) + decimal(pages.last() as nat) + text_bytes(" 0 R "@)
    }
}

/// The page tree: the number of pages and the list of them.
pub open spec fn pages_body(pages: Seq<usize>) -> Seq<u8> {
    text_bytes("<<  /Type /Pages\n"@) + text_bytes("    /Count "@) + decimal(pages.len())
        + text_bytes("\n"@) + text_bytes("    /Kids [ "@) + kids(pages) + text_bytes("]\n"@)
        + text_bytes(">>\n"@)
}

/// The entries of the document information that are set, in key order:
/// ` /Key (value)`.
pub open spec fn info_entries(info: Seq<Option<Seq<char>>>) -> Seq<u8>
    decreases info.len(),
{
    if info.len() == 0 {
        Seq::empty()
    } else {
        info_entries(info.drop_last()) + match info.last() {
            Some(v) => text_bytes(" /"@) + text_bytes(info_key(info.len() - 1)) + text_bytes(" ("@)
                + text_bytes(v) + text_bytes(")\n"@),
            None => Seq::empty(),
        }
    }
}

/// The creation and modification dates, where the date could be had.
pub open spec fn date_entries(date: Option<Seq<char>>) -> Seq<u8> {
    match date {
        Some(d) => text_bytes(" /CreationDate (D:"@) + text_bytes(d) + text_bytes(")"@)
            + text_bytes(" /ModDate (D:"@) + text_bytes(d) + text_bytes(")"@),
        None => Seq::empty(),
    }
}

/// The document information dictionary.
pub open spec fn info_body(info: Seq<Option<Seq<char>>>, date: Option<Seq<char>>) -> Seq<u8> {
    text_bytes("<<"@) + info_entries(info) + date_entries(date) + text_bytes(">>\n"@)
}

/// The document catalog, which points to the page tree.
pub open spec fn catalog_body() -> Seq<u8> {
    text_bytes("<<  /Type /Catalog\n"@) + text_bytes("    /Pages "@) + decimal(2) + text_bytes(
        " 0 R\n"@,
    ) + text_bytes(">>\n"@)
}

/// Some document information is set.
pub open spec fn has_info(info: Seq<Option<Seq<char>>>) -> bool {
    exists|k: int| 0 <= k < info.len() && (#[trigger] info[k]) is Some
}

/// The output once the page tree is written.
pub open spec fn with_pages(bytes: Seq<u8>, pages: Seq<usize>) -> Seq<u8> {
    bytes + object_bytes(2, pages_body(pages))
}

/// The output once the document information, where there is any, is
/// written as the next object.
pub open spec fn with_info(
    bytes: Seq<u8>,
    offsets: Seq<Option<usize>>,
    pages: Seq<usize>,
    info: Seq<Option<Seq<char>>>,
    date: Option<Seq<char>>,
) -> Seq<u8> {
    if has_info(info) {
        with_pages(bytes, pages) + object_bytes(offsets.len(), info_body(info, date))
    } else {
        with_pages(bytes, pages)
    }
}

/// The output once the catalog is written: all the objects of the document.
pub open spec fn with_catalog(
    bytes: Seq<u8>,
    offsets: Seq<Option<usize>>,
    pages: Seq<usize>,
    info: Seq<Option<Seq<char>>>,
    date: Option<Seq<char>>,
) -> Seq<u8> {
    with_info(bytes, offsets, pages, info, date) + object_bytes(1, catalog_body())
}

/// Where every object of the finished document begins.
pub open spec fn final_offsets(
    bytes: Seq<u8>,
    offsets: Seq<Option<usize>>,
    pages: Seq<usize>,
    info: Seq<Option<Seq<char>>>,
    date: Option<Seq<char>>,
) -> Seq<Option<usize>> {
    let grown = if has_info(info) {
        offsets.push(Some(with_pages(bytes, pages).len() as usize))
    } else {
        offsets
    };
    grown.update(2, Some(bytes.len() as usize)).update(
        1,
        Some(with_info(bytes, offsets, pages, info, date).len() as usize),
    )
}

/// The offset recorded for an object, 0 where there is none.
pub open spec fn offset_or_zero(offset: Option<usize>) -> nat {
    match offset {
        Some(o) => o as nat,
        None => 0,
    }
}

/// The cross-reference lines of objects 1 to `n - 1`: each offset in ten
/// digits.
pub open spec fn xref_entries(offsets: Seq<Option<usize>>, n: nat) -> Seq<u8>
    decreases n,
{
    if n <= 1 {
        Seq::empty()
    } else {
        xref_entries(offsets, (n - 1) as nat) + zero_padded(offset_or_zero(offsets[n - 1]), 10)
            + text_bytes(" 00000 n \n"@)
    }
}

/// The reference to the document information in the trailer.
pub open spec fn info_ref(info_id: Option<nat>) -> Seq<u8> {
    match info_id {
        Some(id) => text_bytes("    /Info "@) + decimal(id) + text_bytes(" 0 R\n"@),
        None => Seq::empty(),
    }
}

/// The cross-reference table: object 0, which is free, then a line for
/// each object.
pub open spec fn xref_table(offsets: Seq<Option<usize>>) -> Seq<u8> {
    xref_table_head(offsets.len()) + xref_entries(offsets, offsets.len())
}

/// The header of the cross-reference table of `n` objects and the line of
/// object 0.
pub open spec fn xref_table_head(n: nat) -> Seq<u8> {
    text_bytes("xref\n"@) + text_bytes("0 "@) + decimal(n) + text_bytes("\n"@) + text_bytes(
        "0000000000 65535 f \n"@,
    )
}

/// The trailer dictionary of a document of `n` objects, and the position of
/// the cross-reference table.
pub open spec fn trailer_dict(n: nat, info_id: Option<nat>, startxref: nat) -> Seq<u8> {
    text_bytes("trailer\n"@) + text_bytes("<<  /Size "@) + decimal(n) + text_bytes("\n"@)
        + text_bytes("    /Root "@) + decimal(1) + text_bytes(" 0 R\n"@) + info_ref(info_id)
        + text_bytes(">>\n"@) + text_bytes("startxref\n"@) + decimal(startxref) + text_bytes(
        "\n"@,
    ) + text_bytes("%%EOF\n"@)
}

/// The cross-reference table, the trailer and the position of the table.
pub open spec fn trailer(offsets: Seq<Option<usize>>, info_id: Option<nat>, startxref: nat) -> Seq<
    u8,
> {
    xref_table(offsets) + trailer_dict(offsets.len(), info_id, startxref)
}

/// The finished document.
pub open spec fn finished_document(
    bytes: Seq<u8>,
    offsets: Seq<Option<usize>>,
    pages: Seq<usize>,
    info: Seq<Option<Seq<char>>>,
    date: Option<Seq<char>>,
) -> Seq<u8> {
    let all = with_catalog(bytes, offsets, pages, info, date);
    all + trailer(
        final_offsets(bytes, offsets, pages, info, date),
        if has_info(info) {
            Some(offsets.len())
        } else {
            None
        },
        all.len(),
    )
}

/// A finished document has an information dictionary as soon as any one of
/// the entries is set, whichever it is: it is written as the next object
/// after those of the pages, and the trailer refers to it with `/Info`.
pub proof fn lemma_info_written(pdf: &Pdf, date: Option<Seq<char>>, k: int)
    requires
        pdf.well_formed(),
        0 <= k < pdf.info().len(),
        pdf.info()[k] is Some,
    ensures
        ({
            let n = pdf.offsets().len();
            let all = pdf.bytes() + object_bytes(2, pages_body(pdf.pages())) + object_bytes(
                n,
                info_body(pdf.info(), date),
            ) + object_bytes(1, catalog_body());
            let offs = final_offsets(pdf.bytes(), pdf.offsets(), pdf.pages(), pdf.info(), date);
            &&& offs.len() == n + 1
            &&& finished_document(pdf.bytes(), pdf.offsets(), pdf.pages(), pdf.info(), date)
                == all + xref_table(offs) + trailer_dict(n + 1, Some(n), all.len())
            &&& info_ref(Some(n)) == text_bytes("    /Info "@) + decimal(n) + text_bytes(" 0 R\n"@)
        }),
{
    pdf.lemma_layout();
    let bytes = pdf.bytes();
    let offsets = pdf.offsets();
    let pages = pdf.pages();
    let info = pdf.info();
    assert(has_info(info));
    let all = bytes + object_bytes(2, pages_body(pages)) + object_bytes(
        offsets.len(),
        info_body(info, date),
    ) + object_bytes(1, catalog_body());
    let offs = final_offsets(bytes, offsets, pages, info, date);
    assert(offs.len() == offsets.len() + 1);
    assert(with_catalog(bytes, offsets, pages, info, date) == all);
    assert(finished_document(bytes, offsets, pages, info, date) =~= all + xref_table(offs)
        + trailer_dict(offs.len(), Some(offsets.len() as nat), all.len()));
}

/// A text's characters, where there is a text.
pub open spec fn opt_chars(s: Option<&str>) -> Option<Seq<char>> {
    match s {
        Some(t) => Some(t@),
        None => None,
    }
}

/// The bytes of `pages_body(pages)`.
fn pages_body_bytes(pages: &Vec<usize>) -> (body: Vec<u8>)
    ensures
        body@ == pages_body(pages@),
{
    let mut body: Vec<u8> = Vec::new();
    push_str(&mut body, "<<  /Type /Pages\n");
    push_str(&mut body, "    /Count ");
    push_decimal(&mut body, pages.len() as u64);
    push_str(&mut body, "\n");
    push_str(&mut body, "    /Kids [ ");
    let ghost start = body@;
    let mut k: usize = 0;
    while k < pages.len()
        invariant
            k <= pages@.len(),
            body@ == start + kids(pages@.take(k as int)),
        decreases pages@.len() - k,
    {
        push_decimal(&mut body, pages[k] as u64);
        push_str(&mut body, " 0 R ");
        assert(pages@.take(k as int + 1).drop_last() =~= pages@.take(k as int));
        assert(body@ =~= start + kids(pages@.take(k as int + 1)));
        k = k + 1;
    }
    assert(pages@.take(pages@.len() as int) =~= pages@);
    push_str(&mut body, "]\n");
    push_str(&mut body, ">>\n");
    assert(body@ =~= pages_body(pages@));
    body
}

/// The bytes of `catalog_body()`.
fn catalog_body_bytes() -> (body: Vec<u8>)
    ensures
        body@ == catalog_body(),
{
    let mut body: Vec<u8> = Vec::new();
    push_str(&mut body, "<<  /Type /Catalog\n");
    push_str(&mut body, "    /Pages ");
    push_decimal(&mut body, PAGES_OBJECT_ID as u64);
    push_str(&mut body, " 0 R\n");
    push_str(&mut body, ">>\n");
    assert(body@ =~= catalog_body());
    body
}

/// The name of document information entry `k`.
fn info_key_str(k: usize) -> (key: &'static str)
    ensures
        key@ == info_key(k as int),
{
    if k == 0 {
        "Author"
    } else if k == 1 {
        "Creator"
    } else if k == 2 {
        "Keywords"
    } else if k == 3 {
        "Producer"
    } else if k == 4 {
        "Subject"
    } else {
        "Title"
    }
}

/// Appends the cross-reference table.
fn push_xref_table(out: &mut Vec<u8>, offsets: &Vec<Option<usize>>)
    ensures
        final(out)@ == old(out)@ + xref_table(offsets@),
{
    push_str(out, "xref\n");
    push_str(out, "0 ");
    push_decimal(out, offsets.len() as u64);
    push_str(out, "\n");
    push_str(out, "0000000000 65535 f \n");
    let ghost start = out@;
    let mut i: usize = 1;
    while i < offsets.len()
        invariant
            1 <= i,
            i <= offsets@.len() || i == 1,
            out@ == start + xref_entries(offsets@, i as nat),
        decreases offsets@.len() - i,
    {
        let o: usize = match offsets[i] {
            Some(o) => o,
            None => 0,
        };
        push_zero_padded(out, o as u64, 10);
        push_str(out, " 00000 n \n");
        assert(out@ =~= start + xref_entries(offsets@, (i + 1) as nat));
        i = i + 1;
    }
    assert(xref_entries(offsets@, i as nat) == xref_entries(offsets@, offsets@.len()));
    assert(out@ =~= old(out)@ + xref_table(offsets@));
}

/// Appends the trailer dictionary and the position of the cross-reference
/// table.
fn push_trailer_dict(out: &mut Vec<u8>, n: usize, info_id: Option<usize>, startxref: usize)
    ensures
        final(out)@ == old(out)@ + trailer_dict(
            n as nat,
            match info_id {
                Some(id) => Some(id as nat),
                None => None,
            },
            startxref as nat,
        ),
{
    push_str(out, "trailer\n");
    push_str(out, "<<  /Size ");
    push_decimal(out, n as u64);
    push_str(out, "\n");
    push_str(out, "    /Root ");
    push_decimal(out, ROOT_OBJECT_ID as u64);
    push_str(out, " 0 R\n");
    let ghost mid = out@;
    match info_id {
        Some(id) => {
            push_str(out, "    /Info ");
            push_decimal(out, id as u64);
            push_str(out, " 0 R\n");
            assert(out@ =~= mid + info_ref(Some(id as nat)));
        },
        None => {
            assert(out@ =~= mid + info_ref(None));
        },
    }
    push_str(out, ">>\n");
    push_str(out, "startxref\n");
    push_decimal(out, startxref as u64);
    push_str(out, "\n");
    push_str(out, "%%EOF\n");
    assert(out@ =~= old(out)@ + trailer_dict(
        n as nat,
        match info_id {
            Some(id) => Some(id as nat),
            None => None,
        },
        startxref as nat,
    ));
}

/// The tail of the cross-reference line of an object in use: generation
/// `00000` and the flag `n`, then the end of the line.
pub open spec fn in_use_tail() -> Seq<u8> {
    seq![32u8, 48u8, 48u8, 48u8, 48u8, 48u8, 32u8, 110u8, 32u8, 10u8]
}

/// The start of the cross-reference table of `n` objects: `xref`, the
/// range `0 n`, and object 0 as the head of the list of free objects, with
/// generation 65535.
pub open spec fn xref_head_bytes(n: nat) -> Seq<u8> {
    seq![120u8, 114u8, 101u8, 102u8, 10u8, 48u8, 32u8] + decimal(n) + seq![10u8] + seq![
        48u8,
        48u8,
        48u8,
        48u8,
        48u8,
        48u8,
        48u8,
        48u8,
        48u8,
        48u8,
        32u8,
        54u8,
        53u8,
        53u8,
        51u8,
        53u8,
        32u8,
        102u8,
        32u8,
        10u8,
    ]
}

/// What comes before the lines of the objects in the cross-reference table.
proof fn lemma_xref_head(n: nat)
    ensures
        xref_table_head(n) == xref_head_bytes(n),
{
    reveal_strlit("xref\n");
    reveal_strlit("0 ");
    reveal_strlit("\n");
    reveal_strlit("0000000000 65535 f \n");
    lemma_text_bytes_ascii("xref\n"@);
    lemma_text_bytes_ascii("0 "@);
    lemma_text_bytes_ascii("\n"@);
    lemma_text_bytes_ascii("0000000000 65535 f \n"@);
    assert(text_bytes("xref\n"@) + text_bytes("0 "@) =~= seq![120u8, 114u8, 101u8, 102u8, 10u8, 48u8, 32u8]);
    assert(text_bytes("\n"@) =~= seq![10u8]);
    assert(text_bytes("0000000000 65535 f \n"@) =~= seq![
        48u8, 48u8, 48u8, 48u8, 48u8, 48u8, 48u8, 48u8, 48u8, 48u8, 32u8, 54u8, 53u8, 53u8, 51u8,
        53u8, 32u8, 102u8, 32u8, 10u8,
    ]);
    assert(xref_table_head(n) =~= xref_head_bytes(n));
}

/// An offset below `10^10` takes ten digits once padded.
proof fn lemma_zero_padded_ten(o: nat)
    requires
        o < 10000000000,
    ensures
        zero_padded(o, 10).len() == 10,
{
    lemma_decimal_len_bound(o);
}

/// The lines for objects 1 to `n - 1`, twenty bytes each: the offset in
/// ten digits, then `00000 n`.
proof fn lemma_xref_entries_lines(offsets: Seq<Option<usize>>, n: nat)
    requires
        1 <= n <= offsets.len(),
        forall|i: int| 1 <= i < n ==> offset_or_zero(#[trigger] offsets[i]) < 10000000000,
    ensures
        xref_entries(offsets, n).len() == 20 * (n - 1),
        forall|i: int|
            1 <= i < n ==> #[trigger] xref_entries(offsets, n).subrange(20 * (i - 1), 20 * i)
                == zero_padded(offset_or_zero(offsets[i]), 10) + in_use_tail(),
    decreases n,
{
    if n > 1 {
        lemma_xref_entries_lines(offsets, (n - 1) as nat);
        let prev = xref_entries(offsets, (n - 1) as nat);
        let line = zero_padded(offset_or_zero(offsets[n - 1]), 10);
        lemma_zero_padded_ten(offset_or_zero(offsets[n - 1]));
        reveal_strlit(" 00000 n \n");
        lemma_text_bytes_ascii(" 00000 n \n"@);
        assert(text_bytes(" 00000 n \n"@) =~= in_use_tail());
        let all = xref_entries(offsets, n);
        assert(all == prev + line + in_use_tail());
        assert forall|i: int|
            1 <= i < n implies #[trigger] all.subrange(20 * (i - 1), 20 * i) == zero_padded(
            offset_or_zero(offsets[i]),
            10,
        ) + in_use_tail() by {
            if i < n - 1 {
                assert(all.subrange(20 * (i - 1), 20 * i) =~= prev.subrange(20 * (i - 1), 20 * i));
            } else {
                assert(all.subrange(20 * (i - 1), 20 * i) =~= line + in_use_tail());
            }
        }
    }
}

/// In a finished document every object from 1 on is listed as in use: its
/// line in the cross-reference table is where it begins, in ten digits,
/// followed by `00000 n`, and it does begin there. The lines follow the
/// table's header in the order of the objects' numbers. This holds of
/// documents shorter than `10^10` bytes, whose offsets fit in ten digits.
pub proof fn lemma_xref_lines_in_use(pdf: &Pdf, date: Option<Seq<char>>, i: int)
    requires
        pdf.well_formed(),
        finished_document(pdf.bytes(), pdf.offsets(), pdf.pages(), pdf.info(), date).len()
            <= usize::MAX,
        finished_document(pdf.bytes(), pdf.offsets(), pdf.pages(), pdf.info(), date).len()
            < 10000000000,
        1 <= i < final_offsets(pdf.bytes(), pdf.offsets(), pdf.pages(), pdf.info(), date).len(),
    ensures
        ({
            let doc = finished_document(pdf.bytes(), pdf.offsets(), pdf.pages(), pdf.info(), date);
            let offs = final_offsets(pdf.bytes(), pdf.offsets(), pdf.pages(), pdf.info(), date);
            let startxref = with_catalog(
                pdf.bytes(),
                pdf.offsets(),
                pdf.pages(),
                pdf.info(),
                date,
            ).len();
            let first = startxref + xref_table(offs).len() - 20 * (offs.len() - 1);
            &&& offs[i] is Some
            &&& recorded_at(doc, offs[i], i as nat)
            &&& first + 20 * i <= doc.len()
            &&& doc.subrange(first + 20 * (i - 1), first + 20 * i) == zero_padded(
                offs[i]->0 as nat,
                10,
            ) + in_use_tail()
            &&& doc.subrange(startxref as int, first) == xref_head_bytes(offs.len())
        }),
{
    let doc = finished_document(pdf.bytes(), pdf.offsets(), pdf.pages(), pdf.info(), date);
    let offs = final_offsets(pdf.bytes(), pdf.offsets(), pdf.pages(), pdf.info(), date);
    let wc = with_catalog(pdf.bytes(), pdf.offsets(), pdf.pages(), pdf.info(), date);
    lemma_xref_points_to_objects(pdf, date);
    assert forall|j: int| 1 <= j < offs.len() implies offset_or_zero(#[trigger] offs[j])
        < 10000000000 by {
        assert(recorded_at(doc, offs[j], j as nat));
    }
    let n = offs.len();
    lemma_xref_entries_lines(offs, n);
    let entries = xref_entries(offs, n);
    let table = xref_table(offs);
    let head = table.subrange(0, table.len() - entries.len());
    assert(table =~= head + entries);
    let info_id: Option<nat> = if has_info(pdf.info()) {
        Some(pdf.offsets().len())
    } else {
        None
    };
    let tail = trailer_dict(n, info_id, wc.len());
    assert(doc =~= wc + head + entries + tail);
    let first = wc.len() + head.len();
    lemma_xref_head(n);
    assert(head =~= xref_head_bytes(n));
    assert(doc.subrange(wc.len() as int, first as int) =~= head);
    assert(doc.subrange(first + 20 * (i - 1), first + 20 * i) =~= entries.subrange(
        20 * (i - 1),
        20 * i,
    ));
    assert(entries.subrange(20 * (i - 1), 20 * i) == zero_padded(offset_or_zero(offs[i]), 10)
        + in_use_tail());
}

/// In a finished document every line of the cross-reference table tells
/// the truth: for each object number `i` from 1 on, the offset in line `i`
/// is where `i 0 obj` begins. The `startxref` position is where the table
/// begins, and every page listed in the page tree is a page object.
pub proof fn lemma_xref_points_to_objects(pdf: &Pdf, date: Option<Seq<char>>)
    requires
        pdf.well_formed(),
        finished_document(pdf.bytes(), pdf.offsets(), pdf.pages(), pdf.info(), date).len()
            <= usize::MAX,
    ensures
        ({
            let doc = finished_document(pdf.bytes(), pdf.offsets(), pdf.pages(), pdf.info(), date);
            let offs = final_offsets(pdf.bytes(), pdf.offsets(), pdf.pages(), pdf.info(), date);
            let startxref = with_catalog(
                pdf.bytes(),
                pdf.offsets(),
                pdf.pages(),
                pdf.info(),
                date,
            ).len();
            &&& offs.len() == pdf.offsets().len() + (if has_info(pdf.info()) {
                1int
            } else {
                0int
            })
            &&& forall|i: int| 1 <= i < offs.len() ==> recorded_at(doc, #[trigger] offs[i], i as nat)
            &&& startxref + text_bytes("xref\n"@).len() <= doc.len()
            &&& doc.subrange(startxref as int, (startxref + text_bytes("xref\n"@).len()) as int)
                == text_bytes("xref\n"@)
            &&& forall|k: int|
                0 <= k < pdf.pages().len() ==> page_recorded_at(
                    doc,
                    offs[#[trigger] pdf.pages()[k] as int],
                    pdf.pages()[k] as nat,
                )
        }),
{
    reveal(Pdf::well_formed);
    let b0 = pdf.bytes();
    let o0 = pdf.offsets();
    let p0 = pdf.pages();
    let i0 = pdf.info();
    let doc = finished_document(b0, o0, p0, i0, date);
    let offs = final_offsets(b0, o0, p0, i0, date);
    let wp = with_pages(b0, p0);
    let wi = with_info(b0, o0, p0, i0, date);
    let wc = with_catalog(b0, o0, p0, i0, date);
    let tr = trailer(
        offs,
        if has_info(i0) {
            Some(o0.len())
        } else {
            None
        },
        wc.len(),
    );
    assert(doc == wc + tr);
    // Everything written before `finish` stays where it was.
    let after = doc.subrange(b0.len() as int, doc.len() as int);
    assert(doc =~= b0 + after);
    assert forall|i: int| 1 <= i < offs.len() implies recorded_at(doc, #[trigger] offs[i], i as nat) by {
        if i == 1 {
            lemma_starts_object_appended(wi, 1, catalog_body(), tr);
        } else if i == 2 {
            let rest = doc.subrange(wp.len() as int, doc.len() as int);
            assert(doc =~= b0 + object_bytes(2, pages_body(p0)) + rest);
            lemma_starts_object_appended(b0, 2, pages_body(p0), rest);
        } else if i < o0.len() {
            assert(offs[i] == o0[i]);
            let o = o0[i]->0;
            lemma_starts_object_extend(b0, after, o as nat, i as nat);
        } else {
            assert(has_info(i0));
            assert(i == o0.len());
            let rest = doc.subrange(wi.len() as int, doc.len() as int);
            assert(doc =~= wp + object_bytes(o0.len(), info_body(i0, date)) + rest);
            lemma_starts_object_appended(wp, o0.len(), info_body(i0, date), rest);
        }
    }
    assert forall|k: int| 0 <= k < p0.len() implies page_recorded_at(
        doc,
        offs[#[trigger] p0[k] as int],
        p0[k] as nat,
    ) by {
        let p = p0[k];
        assert(offs[p as int] == o0[p as int]);
        lemma_page_object_extend(b0, after, o0[p as int]->0 as nat, p as nat);
    }
    let x = text_bytes("xref\n"@);
    let trest = tr.subrange(x.len() as int, tr.len() as int);
    assert(tr =~= x + trest);
    assert(doc.subrange(wc.len() as int, (wc.len() + x.len()) as int) =~= x);
}

/// A page object written at the end of `doc` begins where `doc` ended.
pub proof fn lemma_page_object_appended(doc: Seq<u8>, id: nat, body: Seq<u8>, more: Seq<u8>)
    requires
        page_object_start().len() <= body.len(),
        body.subrange(0, page_object_start().len() as int) == page_object_start(),
    ensures
        is_page_object(doc + object_bytes(id, body) + more, doc.len(), id),
{
    let all = doc + object_bytes(id, body) + more;
    lemma_starts_object_appended(doc, id, body, more);
    let h = obj_header(id).len();
    let p = page_object_start().len();
    assert(all.subrange((doc.len() + h) as int, (doc.len() + h + p) as int) =~= body.subrange(
        0,
        p as int,
    ));
}

/// A page object stays where it is when more is written.
pub proof fn lemma_page_object_extend(doc: Seq<u8>, more: Seq<u8>, offset: nat, id: nat)
    requires
        is_page_object(doc, offset, id),
    ensures
        is_page_object(doc + more, offset, id),
{
    lemma_starts_object_extend(doc, more, offset, id);
    let h = obj_header(id).len();
    let p = page_object_start().len();
    assert((doc + more).subrange((offset + h) as int, (offset + h + p) as int) =~= doc.subrange(
        (offset + h) as int,
        (offset + h + p) as int,
    ));
}

} // verus!
