//! Importing the histories of other clipboard managers, and exported ones.

use vstd::prelude::*;
use vstd::utf8::*;

use quick_xml::events::attributes::AttrError;
use quick_xml::Error as QuickXmlError;

use crate::protocol::{decompose_id, mime_as_str, mime_from, mime_new, MimeType, RingKind};
use crate::text::{bytes_equal, starts_with, str_equal, str_from_utf8};

verus! {

/// Where the contents of an imported entry come from.
#[derive(Debug)]
pub enum ImportedData {
    /// These are the contents.
    Inline(String),
    /// The contents are in the file of this name.
    File(String),
}

/// The part of a path after its last slash.
pub open spec fn last_segment(path: Seq<char>) -> Seq<char>
    decreases path.len(),
{
    if path.len() == 0 || path.last() == '/' {
        Seq::<char>::empty()
    } else {
        last_segment(path.drop_last()).push(path.last())
    }
}

proof fn lemma_last_segment(path: Seq<char>, from: int)
    requires
        0 <= from <= path.len(),
        forall|i: int| from <= i < path.len() ==> #[trigger] path[i] != '/',
        from > 0 ==> path[from - 1] == '/',
    ensures
        last_segment(path) == path.skip(from),
    decreases path.len() - from,
{
    if from < path.len() {
        lemma_last_segment(path.drop_last(), from);
        assert(path.skip(from) =~= path.drop_last().skip(from).push(path.last()));
    } else {
        assert(path.skip(from) =~= Seq::<char>::empty());
    }
}

/// The part of a path after its last slash.
pub fn file_name(path: &str) -> (name: &str)
    ensures
        name@ == last_segment(path@),
{
    let len: usize = path.unicode_len();
    let mut from: usize = len;
    while from > 0 && path.get_char(from - 1) != '/'
        invariant
            from <= len == path@.len(),
            forall|i: int| from <= i < len ==> #[trigger] path@[i] != '/',
        decreases from,
    {
        from -= 1;
    }
    proof {
        lemma_last_segment(path@, from as int);
        assert(path@.subrange(from as int, len as int) =~= path@.skip(from as int));
    }
    path.substring_char(from, len)
}

/// Whether the contents of a Clipboard Indicator entry stand in its registry.
pub open spec fn is_registry_text(mime_type: Seq<u8>) -> bool {
    ||| mime_type.len() == 0
    ||| crate::text::spec_starts_with(mime_type, encode_utf8("text/"@))
    ||| mime_type == encode_utf8("STRING"@)
    ||| mime_type == encode_utf8("UTF8_STRING"@)
}

/// Where an entry of Clipboard Indicator's registry goes, and where its contents
/// come from. Entries without contents, and those that are neither text nor an
/// image, are left out.
pub fn clipboard_indicator_entry(favorite: bool, mime_type: &MimeType, contents: &str) -> (entry:
    Option<(RingKind, ImportedData)>)
    ensures
        ({
            let mime = encode_utf8(crate::protocol::mime_text(*mime_type));
            let image = crate::text::spec_starts_with(mime, encode_utf8("image/"@));
            let ring = if favorite {
                RingKind::Favorites
            } else {
                RingKind::Main
            };
            if contents@.len() == 0 || !(is_registry_text(mime) || image) {
                entry is None
            } else if is_registry_text(mime) {
                entry matches Some((to, ImportedData::Inline(data))) && to == ring && data@
                    == contents@
            } else {
                entry matches Some((to, ImportedData::File(name))) && to == ring && name@
                    == last_segment(contents@)
            }
        }),
{
    if contents.is_empty() {
        return None;
    }
    let ring = if favorite {
        RingKind::Favorites
    } else {
        RingKind::Main
    };
    let mime = mime_as_str(mime_type).as_bytes();
    if mime.len() == 0 || starts_with(mime, "text/".as_bytes()) || bytes_equal(
        mime,
        "STRING".as_bytes(),
    ) || bytes_equal(mime, "UTF8_STRING".as_bytes()) {
        Some((ring, ImportedData::Inline(contents.to_owned())))
    } else if starts_with(mime, "image/".as_bytes()) {
        Some((ring, ImportedData::File(file_name(contents).to_owned())))
    } else {
        None
    }
}

/// What a part of an XML document is read as.
#[derive(Debug)]
pub enum XmlEvent {
    Eof,
    /// The start of an element: its name, and what follows the name in the tag.
    Start { name: String, attributes: String },
    Other,
}

impl XmlEvent {
    /// The end of the document, or the name and attributes of an element that starts.
    pub open spec fn model(&self) -> Option<Option<(Seq<char>, Seq<char>)>> {
        match *self {
            XmlEvent::Eof => None,
            XmlEvent::Start { name, attributes } => Some(Some((name@, attributes@))),
            XmlEvent::Other => Some(None),
        }
    }
}

/// `quick_xml::Reader`: a reader of an XML document.
#[verifier::external_type_specification]
#[verifier::external_body]
#[verifier::reject_recursive_types(R)]
pub struct ExXmlReader<R>(quick_xml::Reader<R>);

/// `quick_xml::Error`: why an event cannot be read.
#[verifier::external_type_specification]
#[verifier::external_body]
pub struct ExXmlEventError(QuickXmlError);

/// `quick_xml::events::attributes::AttrError`: why an attribute cannot be read.
#[verifier::external_type_specification]
#[verifier::external_body]
pub struct ExXmlAttributeError(AttrError);

/// Why an XML document cannot be read.
#[derive(Debug)]
pub enum XmlError {
    Event(QuickXmlError),
    Attribute(AttrError),
}

/// The document that a reader was made for.
pub uninterp spec fn xml_document(reader: quick_xml::Reader<&[u8]>) -> Seq<u8>;

/// How many events a reader was asked for.
pub uninterp spec fn xml_events_read(reader: quick_xml::Reader<&[u8]>) -> nat;

/// How much of its document a reader has not come to.
pub uninterp spec fn xml_left(reader: quick_xml::Reader<&[u8]>) -> nat;

/// What `quick_xml` reads a document as: the event that comes after the given number
/// of others, unless it cannot be read.
pub uninterp spec fn xml_event(document: Seq<u8>, n: nat) -> Option<
    Option<Option<(Seq<char>, Seq<char>)>>,
>;

/// The raw value of an attribute of a tag, if it is there, unless the attributes
/// before it cannot be read.
pub uninterp spec fn xml_attribute(
    name: Seq<char>,
    attributes: Seq<char>,
    key: Seq<char>,
) -> Option<Option<Seq<char>>>;

/// `quick_xml::Reader::from_reader`: a reader at the start of a document.
#[verifier::external_body]
fn xml_reader(document: &[u8]) -> (reader: quick_xml::Reader<&[u8]>)
    ensures
        xml_document(reader) == document@,
        xml_events_read(reader) == 0,
        xml_left(reader) == document@.len(),
{
    quick_xml::Reader::from_reader(document)
}

/// `quick_xml::Reader::read_event`: the next event of the reader's document. The
/// events are given by the document alone, and each one but the end takes up some of
/// the document.
#[verifier::external_body]
fn read_xml_event(reader: &mut quick_xml::Reader<&[u8]>) -> (event: Result<
    XmlEvent,
    QuickXmlError,
>)
    ensures
        xml_document(*final(reader)) == xml_document(*old(reader)),
        xml_events_read(*final(reader)) == xml_events_read(*old(reader)) + 1,
        match event {
            Ok(event) => xml_event(xml_document(*old(reader)), xml_events_read(*old(reader)))
                == Some(event.model()),
            Err(_) => xml_event(xml_document(*old(reader)), xml_events_read(*old(reader))) is None,
        },
        (event matches Ok(event) && !(event is Eof)) ==> xml_left(*final(reader)) < xml_left(
            *old(reader),
        ),
{
    Ok(
        match reader.read_event()? {
            quick_xml::events::Event::Eof => XmlEvent::Eof,
            quick_xml::events::Event::Start(tag) => XmlEvent::Start {
                name: tag.name().as_ref().to_owned(),
                attributes: tag.attributes_raw().to_owned(),
            },
            _ => XmlEvent::Other,
        },
    )
}

/// `quick_xml::events::BytesStart::try_get_attribute`: the raw value of the first
/// attribute with the given key, unless one before it is malformed.
#[verifier::external_body]
fn read_xml_attribute(name: &str, attributes: &str, key: &str) -> (value: Result<
    Option<String>,
    AttrError,
>)
    ensures
        match value {
            Ok(Some(value)) => xml_attribute(name@, attributes@, key@) == Some(Some(value@)),
            Ok(None) => xml_attribute(name@, attributes@, key@) == Some(None::<Seq<char>>),
            Err(_) => xml_attribute(name@, attributes@, key@) is None,
        },
{
    let tag = format!("{name}{attributes}");
    let tag = quick_xml::events::BytesStart::from_content(tag, name.len());
    let found = tag.try_get_attribute(key)?;
    Ok(found.map(|attribute| attribute.value.into_owned()))
}

/// Whether a GPaste history can be imported.
#[derive(Copy, Clone, Eq, PartialEq, Debug, Structural)]
pub enum GPasteCheck {
    /// Read on.
    Continue,
    Supported,
    /// The history has another format.
    Unsupported,
    /// The history ends too early.
    Corrupted,
}

/// The check of a history's version.
pub open spec fn gpaste_version_check(version: Option<Seq<char>>) -> GPasteCheck {
    if version == Some("2.0"@) {
        GPasteCheck::Supported
    } else {
        GPasteCheck::Unsupported
    }
}

/// The check of an event at the beginning of a history, unless its version cannot be
/// read: the first element must be a history of version 2.0.
pub open spec fn gpaste_event_check(event: Option<Option<(Seq<char>, Seq<char>)>>) -> Option<
    GPasteCheck,
> {
    match event {
        None => Some(GPasteCheck::Corrupted),
        Some(None) => Some(GPasteCheck::Continue),
        Some(Some((name, attributes))) => if name != "history"@ {
            Some(GPasteCheck::Unsupported)
        } else {
            match xml_attribute(name, attributes, "version"@) {
                Some(version) => Some(gpaste_version_check(version)),
                None => None,
            }
        },
    }
}

/// Whether an event of a document is read over.
pub open spec fn is_read_over(document: Seq<u8>, n: nat) -> bool {
    xml_event(document, n) matches Some(event) && gpaste_event_check(event) == Some(
        GPasteCheck::Continue,
    )
}

/// Looks at the version of a GPaste history.
pub fn check_gpaste_version(version: Option<&str>) -> (check: GPasteCheck)
    ensures
        check == gpaste_version_check(
            match version {
                Some(version) => Some(version@),
                None => None,
            },
        ),
{
    match version {
        Some(version) => if str_equal(version, "2.0") {
            GPasteCheck::Supported
        } else {
            GPasteCheck::Unsupported
        },
        None => GPasteCheck::Unsupported,
    }
}

/// Looks at the beginning of a GPaste history: the first element must be a
/// history of version 2.0.
pub fn check_gpaste_event(event: &XmlEvent) -> (check: Result<GPasteCheck, XmlError>)
    ensures
        match check {
            Ok(check) => gpaste_event_check(event.model()) == Some(check),
            Err(XmlError::Attribute(_)) => gpaste_event_check(event.model()) is None,
            Err(XmlError::Event(_)) => false,
        },
{
    match event {
        XmlEvent::Eof => Ok(GPasteCheck::Corrupted),
        XmlEvent::Other => Ok(GPasteCheck::Continue),
        XmlEvent::Start { name, attributes } => {
            if !str_equal(name.as_str(), "history") {
                return Ok(GPasteCheck::Unsupported);
            }
            match read_xml_attribute(name.as_str(), attributes.as_str(), "version") {
                Ok(Some(version)) => Ok(check_gpaste_version(Some(version.as_str()))),
                Ok(None) => Ok(check_gpaste_version(None)),
                Err(error) => Err(XmlError::Attribute(error)),
            }
        },
    }
}

/// Whether a GPaste history can be imported, as the first of its events tells that is
/// not read over.
pub fn check_gpaste_history(history: &[u8]) -> (check: Result<GPasteCheck, XmlError>)
    ensures
        check != Ok::<GPasteCheck, XmlError>(GPasteCheck::Continue),
        exists|n: nat|
            {
                &&& forall|i: nat| i < n ==> is_read_over(history@, i)
                &&& !(#[trigger] is_read_over(history@, n))
                &&& match xml_event(history@, n) {
                    None => check matches Err(XmlError::Event(_)),
                    Some(event) => match gpaste_event_check(event) {
                        Some(expected) => check == Ok::<GPasteCheck, XmlError>(expected),
                        None => check matches Err(XmlError::Attribute(_)),
                    },
                }
            },
{
    let mut reader = xml_reader(history);
    loop
        invariant
            xml_document(reader) == history@,
            forall|i: nat| i < xml_events_read(reader) ==> is_read_over(history@, i),
        decreases xml_left(reader),
    {
        let ghost n = xml_events_read(reader);
        let event = match read_xml_event(&mut reader) {
            Ok(event) => event,
            Err(error) => {
                assert(!is_read_over(history@, n));
                return Err(XmlError::Event(error));
            },
        };
        let check = check_gpaste_event(&event);
        match check {
            Ok(GPasteCheck::Continue) => {
                assert(is_read_over(history@, n));
            },
            _ => {
                assert(!is_read_over(history@, n));
                return check;
            },
        }
    }
}

/// The kind of an item in a GPaste history.
#[derive(Copy, Clone, Eq, PartialEq, Debug, Structural)]
pub enum ItemKind {
    Text,
    Image,
    Uris,
}

/// The contents and mime type of an item in a GPaste history. Items without a
/// value are left out, and images are kept in files of their own.
pub fn gpaste_item(kind: ItemKind, values: &Vec<String>) -> (entry: Option<
    (ImportedData, MimeType),
>)
    ensures
        if values@.len() == 0 || values@[0]@.len() == 0 {
            entry is None
        } else {
            match kind {
                ItemKind::Text | ItemKind::Uris => entry matches Some(
                    (ImportedData::Inline(data), mime),
                ) && data@ == values@[0]@ && crate::protocol::mime_text(mime) == Seq::<
                    char,
                >::empty(),
                ItemKind::Image => entry matches Some((ImportedData::File(name), mime)) && name@
                    == last_segment(values@[0]@) && crate::protocol::mime_text(mime)
                    == "image/png"@,
            }
        },
{
    if values.len() == 0 {
        return None;
    }
    let value = values[0].as_str();
    if value.is_empty() {
        return None;
    }
    match kind {
        ItemKind::Text | ItemKind::Uris => Some(
            (ImportedData::Inline(value.to_owned()), mime_new()),
        ),
        ItemKind::Image => {
            proof {
                reveal_strlit("image/png");
                is_ascii_chars_encode_utf8("image/png"@);
            }
            match mime_from("image/png") {
                Some(mime) => Some((ImportedData::File(file_name(value).to_owned()), mime)),
                None => None,
            }
        },
    }
}

/// An item of a GPaste history.
#[derive(Debug)]
pub struct GPasteItem {
    pub kind: ItemKind,
    pub values: Vec<String>,
}

impl GPasteItem {
    /// Whether the item has a value.
    pub open spec fn has_value(self) -> bool {
        self.values@.len() > 0 && self.values@[0]@.len() > 0
    }

    /// Whether this is what is imported for the item.
    pub open spec fn imports(self, entry: (ImportedData, MimeType)) -> bool {
        match self.kind {
            ItemKind::Text | ItemKind::Uris => entry.0 matches ImportedData::Inline(data) && data@
                == self.values@[0]@ && crate::protocol::mime_text(entry.1) == Seq::<char>::empty(),
            ItemKind::Image => entry.0 matches ImportedData::File(name) && name@ == last_segment(
                self.values@[0]@,
            ) && crate::protocol::mime_text(entry.1) == "image/png"@,
        }
    }
}

/// The items of a GPaste history that are imported, in order. The history starts with
/// the newest item, which is imported last.
pub open spec fn imported_items(items: Seq<GPasteItem>) -> Seq<GPasteItem>
    decreases items.len(),
{
    if items.len() == 0 {
        Seq::empty()
    } else if items[0].has_value() {
        imported_items(items.drop_first()).push(items[0])
    } else {
        imported_items(items.drop_first())
    }
}

/// What is imported of a GPaste history, oldest first.
pub fn gpaste_entries(items: &Vec<GPasteItem>) -> (entries: Vec<(ImportedData, MimeType)>)
    ensures
        entries@.len() == imported_items(items@).len(),
        forall|i: int|
            0 <= i < entries@.len() ==> (#[trigger] imported_items(items@)[i]).imports(entries@[i]),
{
    let mut entries: Vec<(ImportedData, MimeType)> = Vec::new();
    let mut i: usize = items.len();
    assert(items@.skip(i as int) =~= Seq::<GPasteItem>::empty());
    while i > 0
        invariant
            i <= items@.len(),
            entries@.len() == imported_items(items@.skip(i as int)).len(),
            forall|j: int|
                0 <= j < entries@.len() ==> (#[trigger] imported_items(
                    items@.skip(i as int),
                )[j]).imports(entries@[j]),
        decreases i,
    {
        i -= 1;
        let ghost rest = items@.skip(i as int);
        assert(rest.drop_first() =~= items@.skip(i + 1));
        if let Some(entry) = gpaste_item(items[i].kind, &items[i].values) {
            entries.push(entry);
        }
    }
    assert(items@.skip(0) =~= items@);
    entries
}

/// The contents of an exported entry.
#[derive(Debug)]
pub enum ExportData {
    /// Text that can be read.
    Human(String),
    Bytes(Vec<u8>),
}

/// How the contents of an entry are exported: as text if they are valid UTF-8.
pub fn export_data(contents: &[u8]) -> (data: ExportData)
    ensures
        if valid_utf8(contents@) {
            data matches ExportData::Human(text) && text@ == decode_utf8(contents@)
        } else {
            data matches ExportData::Bytes(bytes) && bytes@ == contents@
        },
{
    match str_from_utf8(contents) {
        Ok(text) => ExportData::Human(text.to_owned()),
        Err(_) => ExportData::Bytes(vstd::slice::slice_to_vec(contents)),
    }
}

impl ExportData {
    /// The exported bytes.
    pub open spec fn spec_bytes(self) -> Seq<u8> {
        match self {
            ExportData::Human(text) => encode_utf8(text@),
            ExportData::Bytes(bytes) => bytes@,
        }
    }

    /// The exported bytes.
    pub fn as_bytes(&self) -> (bytes: &[u8])
        ensures
            bytes@ == self.spec_bytes(),
    {
        match self {
            ExportData::Human(text) => text.as_str().as_bytes(),
            ExportData::Bytes(bytes) => bytes.as_slice(),
        }
    }
}

/// Contents survive being exported and imported.
pub proof fn lemma_export_round_trip(contents: Seq<u8>, data: ExportData)
    requires
        if valid_utf8(contents) {
            data matches ExportData::Human(text) && text@ == decode_utf8(contents)
        } else {
            data matches ExportData::Bytes(bytes) && bytes@ == contents
        },
    ensures
        data.spec_bytes() == contents,
{
    if valid_utf8(contents) {
        decode_utf8_encode_utf8(contents);
    }
}

/// The ring that an exported entry is imported into: the one that its ID names,
/// or the main ring.
pub fn import_ring(id: u64) -> (ring: RingKind)
    ensures
        ring == match crate::protocol::spec_decompose_id(id) {
            Ok(parts) => parts.0,
            Err(_) => RingKind::Main,
        },
{
    match decompose_id(id) {
        Ok((ring, _)) => ring,
        Err(_) => RingKind::default(),
    }
}

/// The name of a file is what follows the last slash of its path, whatever the directory,
/// and the path itself if there is none.
pub proof fn lemma_file_name_in_directory(directory: Seq<char>, name: Seq<char>)
    requires
        forall|i: int| 0 <= i < name.len() ==> #[trigger] name[i] != '/',
    ensures
        last_segment(directory + seq!['/'] + name) == name,
        last_segment(name) == name,
{
    let path = directory + seq!['/'] + name;
    let from = directory.len() + 1;
    assert(forall|i: int| from <= i < path.len() ==> #[trigger] path[i] == name[i - from]);
    lemma_last_segment(path, from as int);
    assert(path.skip(from as int) =~= name);
    lemma_last_segment(name, 0);
    assert(name.skip(0) =~= name);
}

/// The items of a GPaste history that have a value are imported, the last one first.
pub proof fn lemma_items_are_imported_oldest_first(items: Seq<GPasteItem>)
    ensures
        imported_items(items) == items.filter(
            |item: GPasteItem| item.values@.len() > 0 && item.values@[0]@.len() > 0,
        ).reverse(),
    decreases items.len(),
{
    reveal(Seq::filter);
    let has_value = |item: GPasteItem| item.values@.len() > 0 && item.values@[0]@.len() > 0;
    if items.len() == 0 {
        assert(imported_items(items) =~= items.filter(has_value).reverse());
    } else {
        let rest = items.drop_first();
        lemma_items_are_imported_oldest_first(rest);
        Seq::filter_distributes_over_add(seq![items[0]], rest, has_value);
        assert(seq![items[0]] + rest =~= items);
        reveal_with_fuel(Seq::filter, 2);
        assert(seq![items[0]].drop_last() =~= Seq::<GPasteItem>::empty());
        assert(imported_items(items) =~= items.filter(has_value).reverse());
    }
}

/// The text of an item is imported as it is, and the image of one from the file that its
/// path names.
pub proof fn lemma_item_is_imported_as_it_is(
    kind: ItemKind,
    values: &Vec<String>,
    entry: Option<(ImportedData, MimeType)>,
)
    requires
        call_ensures(gpaste_item, (kind, values), entry),
    ensures
        entry is None <==> values@.len() == 0 || values@[0]@.len() == 0,
        entry matches Some((ImportedData::Inline(text), mime)) ==> kind != ItemKind::Image
            && text@ == values@[0]@ && crate::protocol::mime_text(mime).len() == 0,
        entry matches Some((ImportedData::File(name), mime)) ==> {
            &&& kind == ItemKind::Image
            &&& crate::protocol::mime_text(mime) == "image/png"@
            &&& forall|i: int| 0 <= i < name@.len() ==> #[trigger] name@[i] != '/'
            &&& name@.len() <= values@[0]@.len()
            &&& values@[0]@.skip(values@[0]@.len() - name@.len()) == name@
            &&& name@.len() < values@[0]@.len() ==> values@[0]@[values@[0]@.len() - name@.len() - 1]
                == '/'
        },
{
    if values@.len() > 0 {
        lemma_last_segment_ends(values@[0]@);
    }
}

proof fn lemma_last_segment_ends(path: Seq<char>)
    ensures
        ({
            let name = last_segment(path);
            &&& forall|i: int| 0 <= i < name.len() ==> #[trigger] name[i] != '/'
            &&& name.len() <= path.len()
            &&& path.skip(path.len() - name.len()) == name
            &&& name.len() < path.len() ==> path[path.len() - name.len() - 1] == '/'
        }),
    decreases path.len(),
{
    if path.len() == 0 || path.last() == '/' {
        assert(path.skip(path.len() as int) =~= Seq::<char>::empty());
    } else {
        let front = path.drop_last();
        lemma_last_segment_ends(front);
        let name = last_segment(path);
        assert(path.skip(path.len() - name.len()) =~= front.skip(
            front.len() - last_segment(front).len(),
        ).push(path.last()));
    }
}

/// The entries of a whole history are those of its items that have a value, oldest first,
/// each imported as it is.
pub proof fn lemma_history_is_imported(
    items: &Vec<GPasteItem>,
    entries: Vec<(ImportedData, MimeType)>,
    i: int,
)
    requires
        call_ensures(gpaste_entries, (items,), entries),
        0 <= i < entries@.len(),
    ensures
        ({
            let kept = items@.filter(
                |item: GPasteItem| item.values@.len() > 0 && item.values@[0]@.len() > 0,
            );
            let item = kept[kept.len() - 1 - i];
            &&& entries@.len() == kept.len()
            &&& entries@[i].0 matches ImportedData::Inline(text) ==> item.kind != ItemKind::Image
                && text@ == item.values@[0]@
            &&& entries@[i].0 matches ImportedData::File(name) ==> item.kind == ItemKind::Image
                && name@ == last_segment(item.values@[0]@)
        }),
{
    lemma_items_are_imported_oldest_first(items@);
    assert(imported_items(items@)[i].imports(entries@[i]));
}

/// An entry of Clipboard Indicator goes to the ring that it is marked for, text as it is and
/// images by the names of their files; only entries without contents or of other kinds are
/// left out.
pub proof fn lemma_registry_entry_is_imported(
    favorite: bool,
    mime_type: &MimeType,
    contents: &str,
    entry: Option<(RingKind, ImportedData)>,
)
    requires
        call_ensures(clipboard_indicator_entry, (favorite, mime_type, contents), entry),
    ensures
        contents@.len() == 0 ==> entry is None,
        entry matches Some((ring, _)) ==> (ring == RingKind::Favorites <==> favorite),
        entry matches Some((_, ImportedData::Inline(text))) ==> text@ == contents@,
        contents@.len() > 0 && crate::protocol::mime_text(*mime_type).len() == 0 ==> (
        entry matches Some((_, ImportedData::Inline(_)))),
        forall|subtype: Seq<char>|
            contents@.len() > 0 && crate::protocol::mime_text(*mime_type) == #[trigger] ("text/"@
                + subtype) ==> (entry matches Some(
                (_, ImportedData::Inline(_)),
            )),
        forall|subtype: Seq<char>|
            contents@.len() > 0 && crate::protocol::mime_text(*mime_type) == #[trigger] ("image/"@
                + subtype) ==> (entry matches Some(
                (_, ImportedData::File(name)),
            ) && name@ == last_segment(contents@)),
{
    let mime = crate::protocol::mime_text(*mime_type);
    reveal_strlit("text/");
    reveal_strlit("image/");
    reveal_strlit("STRING");
    reveal_strlit("UTF8_STRING");
    assert("text/"@ =~= seq!['t', 'e', 'x', 't', '/']);
    assert("image/"@ =~= seq!['i', 'm', 'a', 'g', 'e', '/']);
    is_ascii_chars_encode_utf8("text/"@);
    is_ascii_chars_encode_utf8("image/"@);
    is_ascii_chars_encode_utf8("STRING"@);
    is_ascii_chars_encode_utf8("UTF8_STRING"@);
    if mime.len() == 0 {
        reveal_with_fuel(encode_utf8, 1);
    }
    assert forall|subtype: Seq<char>|
        contents@.len() > 0 && mime == #[trigger] ("text/"@ + subtype) implies (entry matches Some((_, ImportedData::Inline(_)))) by {
        crate::text::lemma_encode_concat("text/"@, subtype);
        assert(encode_utf8(mime).take(5) =~= encode_utf8("text/"@));
    }
    assert forall|subtype: Seq<char>|
        contents@.len() > 0 && mime == #[trigger] ("image/"@ + subtype) implies (entry matches Some((_, ImportedData::File(name))) && name@
        == last_segment(contents@)) by {
        crate::text::lemma_encode_concat("image/"@, subtype);
        let bytes = encode_utf8(mime);
        assert(bytes.take(6) =~= encode_utf8("image/"@));
        assert(bytes[0] == 105);
        assert(bytes.take(5)[0] == 105);
        assert(encode_utf8("text/"@)[0] == 116);
        assert(encode_utf8("STRING"@)[0] == 83);
        assert(encode_utf8("UTF8_STRING"@)[0] == 85);
    }
}

/// What is exported of an entry are its contents, whether they are text or not.
pub proof fn lemma_export_is_contents(contents: &[u8], data: ExportData, bytes: &[u8])
    requires
        call_ensures(export_data, (contents,), data),
        call_ensures(ExportData::as_bytes, (&data,), bytes),
    ensures
        bytes@ == contents@,
        data is Human <==> valid_utf8(contents@),
{
    if valid_utf8(contents@) {
        decode_utf8_encode_utf8(contents@);
    }
}

/// An exported entry goes back to the ring that it was in.
pub proof fn lemma_export_keeps_ring(kind: RingKind, index: u32, id: u64, ring: RingKind)
    requires
        call_ensures(crate::protocol::composite_id, (kind, index), id),
        call_ensures(import_ring, (id,), ring),
    ensures
        ring == kind,
{
}

/// Only a history of version 2.0 is imported: an element of another name or version is not
/// supported, and what is no element is read over.
pub proof fn lemma_only_histories_are_imported(event: XmlEvent, check: Result<GPasteCheck, XmlError>)
    requires
        call_ensures(check_gpaste_event, (&event,), check),
    ensures
        event is Eof ==> check == Ok::<GPasteCheck, XmlError>(GPasteCheck::Corrupted),
        event is Other <==> check == Ok::<GPasteCheck, XmlError>(GPasteCheck::Continue),
        check == Ok::<GPasteCheck, XmlError>(GPasteCheck::Supported) <==> (event matches XmlEvent::Start {
            name,
            attributes,
        } && name@ == "history"@ && xml_attribute("history"@, attributes@, "version"@) == Some(
            Some("2.0"@),
        )),
        event matches XmlEvent::Start { name, attributes } ==> name@ != "history"@ ==> check
            == Ok::<GPasteCheck, XmlError>(GPasteCheck::Unsupported),
{
}

/// The version of a history counts where its first element stands, which is handed out: what
/// comes before that is no element.
pub proof fn lemma_first_element_counts(history: &[u8]) -> (n: nat)
    requires
        call_ensures(
            check_gpaste_history,
            (history,),
            Ok::<GPasteCheck, XmlError>(GPasteCheck::Supported),
        ),
    ensures
        forall|i: nat|
            i < n ==> #[trigger] xml_event(history@, i) == Some(
                Some(None::<(Seq<char>, Seq<char>)>),
            ),
        xml_event(history@, n) matches Some(Some(Some((name, attributes)))) && name == "history"@
            && xml_attribute(name, attributes, "version"@) == Some(Some("2.0"@)),
{
    let n = choose|n: nat|
        {
            &&& forall|i: nat| i < n ==> is_read_over(history@, i)
            &&& !(#[trigger] is_read_over(history@, n))
            &&& xml_event(history@, n) matches Some(event) && gpaste_event_check(event) == Some(
                GPasteCheck::Supported,
            )
        };
    assert forall|i: nat| i < n implies #[trigger] xml_event(history@, i) == Some(
        Some(None::<(Seq<char>, Seq<char>)>),
    ) by {
        assert(is_read_over(history@, i));
    }
    n
}

} // verus!
