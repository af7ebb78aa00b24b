//! Configuration-domain types for Paparazzi-compatible tools: airframe
//! identifiers and the initial compatibility subset of airframe XML files.
use vstd::prelude::*;
use vstd::string::StringSliceAdditionalSpecFns;
use crate::text::bytes_eq;
use crate::xml::{
    attribute_text, find_attribute, read_event, reader_from_str, set_trim_text, unescape_value,
    xml_event, XmlElement, XmlEvent, XmlToken,
};

verus! {

/// Whether `char::is_whitespace` holds of `c`: the Unicode `White_Space` characters.
pub open spec fn is_white_space(c: char) -> bool {
    ||| '\u{9}' <= c && c <= '\u{d}'
    ||| c == ' '
    ||| c == '\u{85}'
    ||| c == '\u{a0}'
    ||| c == '\u{1680}'
    ||| '\u{2000}' <= c && c <= '\u{200a}'
    ||| c == '\u{2028}'
    ||| c == '\u{2029}'
    ||| c == '\u{202f}'
    ||| c == '\u{205f}'
    ||| c == '\u{3000}'
}

/// Whether a text has no visible characters: trimming its white space leaves nothing.
pub open spec fn is_blank(text: Seq<char>) -> bool {
    forall|i: int| 0 <= i < text.len() ==> is_white_space(#[trigger] text[i])
}

fn white_space(c: char) -> (r: bool)
    ensures
        r == is_white_space(c),
{
    ('\u{9}' <= c && c <= '\u{d}') || c == ' ' || c == '\u{85}' || c == '\u{a0}' || c == '\u{1680}' || ('\u{2000}' <= c
        && c <= '\u{200a}') || c == '\u{2028}' || c == '\u{2029}' || c == '\u{202f}' || c == '\u{205f}' || c == '\u{3000}'
}

/// Identifies an airframe configuration without interpreting its XML yet.
#[derive(Clone, Debug, PartialEq, Eq)]
pub struct AirframeId(String);

impl View for AirframeId {
    type V = Seq<char>;

    closed spec fn view(&self) -> Seq<char> {
        self.0@
    }
}

/// Errors raised while validating configuration values.
#[derive(Clone, Copy, Debug, PartialEq, Eq)]
pub enum ConfigError {
    /// An airframe identifier contained no visible characters.
    EmptyAirframeId,
}

impl AirframeId {
    /// Validates and creates a non-empty airframe identifier.
    ///
    /// Returns `ConfigError::EmptyAirframeId` when `value` contains no
    /// visible characters.
    pub fn new(value: &str) -> (r: Result<AirframeId, ConfigError>)
        ensures
            is_blank(value@) ==> r == Err::<AirframeId, ConfigError>(ConfigError::EmptyAirframeId),
            !is_blank(value@) ==> (r matches Ok(id) && id@ == value@),
    {
        let n = value.unicode_len();
        let mut i: usize = 0;
        while i < n
            invariant
                n == value@.len(),
                i <= n,
                forall|j: int| 0 <= j < i ==> is_white_space(#[trigger] value@[j]),
            decreases n - i,
        {
            if !white_space(value.get_char(i)) {
                return Ok(AirframeId(String::from_str(value)));
            }
            i = i + 1;
        }
        Err(ConfigError::EmptyAirframeId)
    }

    /// Returns the identifier as text.
    pub fn as_str(&self) -> (r: &str)
        ensures
            r@ == self@,
    {
        self.0.as_str()
    }
}


/// A parsed subset of a Paparazzi airframe configuration.
#[derive(Clone, Debug, PartialEq, Eq)]
pub struct Airframe {
    /// The human-readable airframe name.
    pub name: AirframeId,
    /// The selected firmware and its declared build targets.
    pub firmware: Firmware,
}

/// A firmware declaration within an airframe configuration.
#[derive(Clone, Debug, PartialEq, Eq)]
pub struct Firmware {
    /// The Paparazzi firmware family, such as `rotorcraft` or `fixedwing`.
    pub name: String,
    /// Build targets declared by this firmware.
    pub targets: Vec<Target>,
}

/// A named firmware build target.
#[derive(Clone, Debug, PartialEq, Eq)]
pub struct Target {
    /// The target name, for example `ap` or `nps`.
    pub name: String,
    /// The board used by this target.
    pub board: String,
}

/// Errors raised while parsing an airframe XML document.
#[derive(Clone, Debug, PartialEq, Eq)]
pub enum ParseError {
    /// The XML document was malformed or otherwise unreadable.
    Xml(String),
    /// The document did not contain an `airframe` root with a name.
    MissingAirframeName,
    /// The document did not declare a firmware name.
    MissingFirmwareName,
    /// A required target attribute was missing.
    MissingTargetAttribute(&'static str),
    /// The root airframe name was not a valid identifier.
    InvalidAirframeName(ConfigError),
}

/// A target as plain values.
pub struct TargetView {
    pub name: Seq<char>,
    pub board: Seq<char>,
}

/// An airframe as plain values.
pub struct AirframeView {
    pub name: Seq<char>,
    pub firmware_name: Seq<char>,
    pub targets: Seq<TargetView>,
}

/// A parse error as plain values.
pub enum ParseErrorView {
    Xml(Seq<char>),
    MissingAirframeName,
    MissingFirmwareName,
    MissingTargetAttribute(Seq<char>),
    InvalidAirframeName(ConfigError),
}

impl View for Target {
    type V = TargetView;

    open spec fn view(&self) -> TargetView {
        TargetView { name: self.name@, board: self.board@ }
    }
}

impl View for Airframe {
    type V = AirframeView;

    open spec fn view(&self) -> AirframeView {
        AirframeView {
            name: self.name@,
            firmware_name: self.firmware.name@,
            targets: self.firmware.targets@.map_values(|t: Target| t@),
        }
    }
}

impl View for ParseError {
    type V = ParseErrorView;

    open spec fn view(&self) -> ParseErrorView {
        match self {
            ParseError::Xml(s) => ParseErrorView::Xml(s@),
            ParseError::MissingAirframeName => ParseErrorView::MissingAirframeName,
            ParseError::MissingFirmwareName => ParseErrorView::MissingFirmwareName,
            ParseError::MissingTargetAttribute(s) => ParseErrorView::MissingTargetAttribute(s@),
            ParseError::InvalidAirframeName(e) => ParseErrorView::InvalidAirframeName(*e),
        }
    }
}

/// The attribute `key` of a tag, with an error carried as a parse error.
pub open spec fn config_attribute(content: Seq<u8>, name_len: nat, key: &str) -> Result<Option<Seq<char>>, ParseErrorView> {
    match attribute_text(content, name_len, key.spec_bytes()) {
        Ok(v) => Ok(v),
        Err(msg) => Err(ParseErrorView::Xml(msg)),
    }
}

/// The target that a `target` tag declares: its `name` and `board`.
pub open spec fn target_definition(content: Seq<u8>, name_len: nat) -> Result<TargetView, ParseErrorView> {
    match config_attribute(content, name_len, "name") {
        Err(e) => Err(e),
        Ok(None) => Err(ParseErrorView::MissingTargetAttribute("name"@)),
        Ok(Some(name)) => match config_attribute(content, name_len, "board") {
            Err(e) => Err(e),
            Ok(None) => Err(ParseErrorView::MissingTargetAttribute("board"@)),
            Ok(Some(board)) => Ok(TargetView { name, board }),
        },
    }
}

/// The state of an airframe scan: the airframe name, the first firmware's
/// name, its targets, and how deep the scan is inside that firmware.
pub struct AirframeScan {
    pub airframe_name: Option<Seq<char>>,
    pub firmware_name: Option<Seq<char>>,
    pub targets: Seq<TargetView>,
    pub depth: nat,
}

/// What one XML event does to an airframe scan.
pub open spec fn airframe_step(s: AirframeScan, token: XmlToken) -> Result<AirframeScan, ParseErrorView> {
    match token {
        XmlToken::Start { name, content } => {
            if name == "airframe".spec_bytes() {
                match config_attribute(content, name.len(), "name") {
                    Err(e) => Err(e),
                    Ok(v) => Ok(AirframeScan { airframe_name: v, ..s }),
                }
            } else if name == "firmware".spec_bytes() && s.firmware_name is None {
                match config_attribute(content, name.len(), "name") {
                    Err(e) => Err(e),
                    Ok(v) => Ok(AirframeScan { firmware_name: v, depth: 1, ..s }),
                }
            } else if name == "firmware".spec_bytes() && s.depth > 0 {
                Ok(AirframeScan { depth: s.depth + 1, ..s })
            } else if name == "target".spec_bytes() && s.depth > 0 {
                match target_definition(content, name.len()) {
                    Err(e) => Err(e),
                    Ok(t) => Ok(AirframeScan { targets: s.targets.push(t), ..s }),
                }
            } else {
                Ok(s)
            }
        },
        XmlToken::Empty { name, content } => {
            if name == "target".spec_bytes() && s.depth > 0 {
                match target_definition(content, name.len()) {
                    Err(e) => Err(e),
                    Ok(t) => Ok(AirframeScan { targets: s.targets.push(t), ..s }),
                }
            } else {
                Ok(s)
            }
        },
        XmlToken::End { name } => {
            if name == "firmware".spec_bytes() && s.depth > 0 {
                Ok(AirframeScan { depth: (s.depth - 1) as nat, ..s })
            } else {
                Ok(s)
            }
        },
        _ => Ok(s),
    }
}

/// The airframe scan after the first `k` events of the document, or the
/// first error it meets.
pub open spec fn airframe_scan(doc: Seq<char>, k: nat) -> Result<AirframeScan, ParseErrorView>
    decreases k,
{
    if k == 0 {
        Ok(AirframeScan { airframe_name: None, firmware_name: None, targets: Seq::empty(), depth: 0 })
    } else {
        match airframe_scan(doc, (k - 1) as nat) {
            Err(e) => Err(e),
            Ok(s) => match xml_event(doc, true, (k - 1) as nat) {
                Ok(token) => airframe_step(s, token),
                Err(msg) => Err(ParseErrorView::Xml(msg)),
            },
        }
    }
}

/// Whether parsing `doc` ends at the reader's `n`-th read: every earlier
/// read yields an event other than `Eof` and the scan has met no error
/// before it, and this read yields `Eof` or makes the scan fail.
pub open spec fn airframe_ends_at(doc: Seq<char>, n: nat) -> bool {
    &&& forall|k: nat| k < n ==> (#[trigger] xml_event(doc, true, k) matches Ok(t) && !(t is Eof))
    &&& airframe_scan(doc, n) is Ok
    &&& (xml_event(doc, true, n) == Ok::<XmlToken, Seq<char>>(XmlToken::Eof) || airframe_scan(doc, n + 1) is Err)
}

/// The airframe that a scan's findings make: it needs an airframe name with a
/// visible character, then a firmware name.
pub open spec fn assembled_airframe(
    airframe_name: Option<Seq<char>>,
    firmware_name: Option<Seq<char>>,
    targets: Seq<TargetView>,
) -> Result<AirframeView, ParseErrorView> {
    match airframe_name {
        None => Err(ParseErrorView::MissingAirframeName),
        Some(name) => if is_blank(name) {
            Err(ParseErrorView::InvalidAirframeName(ConfigError::EmptyAirframeId))
        } else {
            match firmware_name {
                None => Err(ParseErrorView::MissingFirmwareName),
                Some(firmware_name) => Ok(AirframeView { name, firmware_name, targets }),
            }
        },
    }
}

/// What parsing `doc` gives when it ends at the `n`-th read: the airframe
/// that the scan's findings make, or the error met.
pub open spec fn airframe_outcome(doc: Seq<char>, n: nat) -> Result<AirframeView, ParseErrorView> {
    match airframe_scan(doc, n + 1) {
        Err(e) => Err(e),
        Ok(s) => assembled_airframe(s.airframe_name, s.firmware_name, s.targets),
    }
}

/// Makes an airframe from what a document declares: its airframe name, its
/// first firmware's name, and that firmware's targets.
pub fn assemble_airframe(
    airframe_name: Option<String>,
    firmware_name: Option<String>,
    targets: Vec<Target>,
) -> (r: Result<Airframe, ParseError>)
    ensures
        match assembled_airframe(text_view(airframe_name), text_view(firmware_name), target_views(targets@)) {
            Ok(a) => r matches Ok(airframe) && airframe@ == a,
            Err(e) => r matches Err(err) && err@ == e,
        },
{
    let name = match airframe_name {
        Some(name) => name,
        None => return Err(ParseError::MissingAirframeName),
    };
    let name = match AirframeId::new(name.as_str()) {
        Ok(id) => id,
        Err(e) => return Err(ParseError::InvalidAirframeName(e)),
    };
    let firmware_name = match firmware_name {
        Some(f) => f,
        None => return Err(ParseError::MissingFirmwareName),
    };
    Ok(Airframe { name, firmware: Firmware { name: firmware_name, targets } })
}

/// Whether, among the reads of `doc` before `k`, a `firmware` start tag
/// carries a `name` attribute.
pub open spec fn named_firmware_before(doc: Seq<char>, k: nat) -> bool
    decreases k,
{
    if k == 0 {
        false
    } else {
        named_firmware_before(doc, (k - 1) as nat) || match xml_event(doc, true, (k - 1) as nat) {
            Ok(XmlToken::Start { name, content }) => name == "firmware".spec_bytes() && (attribute_text(
                content,
                name.len(),
                "name".spec_bytes(),
            ) matches Ok(Some(_))),
            _ => false,
        }
    }
}

/// How deep read `k` of `doc` lies inside the selected firmware, judged from
/// the document's tags alone: until a firmware start tag with a name has
/// been read, every firmware start tag opens the firmware at depth 1; after
/// that, firmware start tags inside it go one level deeper and firmware end
/// tags inside it close one level. No other tag changes the depth.
pub open spec fn firmware_depth_at(doc: Seq<char>, k: nat) -> nat
    decreases k,
{
    if k == 0 {
        0
    } else {
        let d = firmware_depth_at(doc, (k - 1) as nat);
        match xml_event(doc, true, (k - 1) as nat) {
            Ok(XmlToken::Start { name, .. }) => if name == "firmware".spec_bytes() {
                if !named_firmware_before(doc, (k - 1) as nat) {
                    1
                } else if d > 0 {
                    d + 1
                } else {
                    d
                }
            } else {
                d
            },
            Ok(XmlToken::End { name }) => if name == "firmware".spec_bytes() && d > 0 {
                (d - 1) as nat
            } else {
                d
            },
            _ => d,
        }
    }
}

/// Whether read `k` of `doc` is a `target` tag (start or self-closing) that
/// lies inside the selected firmware.
pub open spec fn target_tag_at(doc: Seq<char>, k: nat) -> bool {
    &&& firmware_depth_at(doc, k) > 0
    &&& match xml_event(doc, true, k) {
        Ok(XmlToken::Start { name, .. }) => name == "target".spec_bytes(),
        Ok(XmlToken::Empty { name, .. }) => name == "target".spec_bytes(),
        _ => false,
    }
}

/// Whether read `k` of `doc` is a `target` tag inside the selected firmware
/// that declares the target `t`.
pub open spec fn target_declared_at(doc: Seq<char>, k: nat, t: TargetView) -> bool {
    &&& target_tag_at(doc, k)
    &&& match xml_event(doc, true, k) {
        Ok(XmlToken::Start { name, content }) => target_definition(content, name.len()) == Ok::<
            TargetView,
            ParseErrorView,
        >(t),
        Ok(XmlToken::Empty { name, content }) => target_definition(content, name.len()) == Ok::<
            TargetView,
            ParseErrorView,
        >(t),
        _ => false,
    }
}

/// Whether `targets` are, in order, the targets declared by the target tags
/// inside the selected firmware among the reads before `k`, read at `reads`.
pub open spec fn targets_sourced(doc: Seq<char>, k: nat, targets: Seq<TargetView>, reads: Seq<nat>) -> bool {
    &&& reads.len() == targets.len()
    &&& forall|i: int| 0 <= i < reads.len() ==> #[trigger] reads[i] < k && target_declared_at(doc, reads[i], targets[i])
    &&& forall|i: int, j: int| 0 <= i < j < reads.len() ==> reads[i] < reads[j]
    &&& forall|j: nat| j < k && #[trigger] target_tag_at(doc, j) ==> exists|i: int| 0 <= i < reads.len() && reads[i] == j
}

/// Distinct literal texts have distinct bytes.
proof fn lemma_literal_bytes_differ(a: &str, b: &str)
    requires
        a@ != b@,
    ensures
        a.spec_bytes() != b.spec_bytes(),
{
    vstd::utf8::encode_utf8_decode_utf8(a@);
    vstd::utf8::encode_utf8_decode_utf8(b@);
}

proof fn lemma_tag_names_differ()
    ensures
        "airframe".spec_bytes() != "firmware".spec_bytes(),
        "airframe".spec_bytes() != "target".spec_bytes(),
        "firmware".spec_bytes() != "target".spec_bytes(),
{
    reveal_strlit("airframe");
    reveal_strlit("firmware");
    reveal_strlit("target");
    assert("airframe"@[0] != "firmware"@[0]);
    assert("airframe"@.len() != "target"@.len());
    assert("firmware"@.len() != "target"@.len());
    lemma_literal_bytes_differ("airframe", "firmware");
    lemma_literal_bytes_differ("airframe", "target");
    lemma_literal_bytes_differ("firmware", "target");
}

/// The scan's firmware name and depth are what the document's tags say.
proof fn lemma_scan_depth(doc: Seq<char>, k: nat)
    ensures
        airframe_scan(doc, k) matches Ok(s) ==> (s.firmware_name is Some <==> named_firmware_before(doc, k)) && s.depth
            == firmware_depth_at(doc, k),
    decreases k,
{
    if k > 0 {
        lemma_scan_depth(doc, (k - 1) as nat);
        lemma_tag_names_differ();
    }
}

proof fn lemma_targets_sourced(doc: Seq<char>, k: nat)
    ensures
        airframe_scan(doc, k) matches Ok(s) ==> exists|reads: Seq<nat>| #[trigger] targets_sourced(doc, k, s.targets, reads),
    decreases k,
{
    if k == 0 {
        let s = airframe_scan(doc, 0)->Ok_0;
        assert(s.targets == Seq::<TargetView>::empty());
        assert(targets_sourced(doc, 0, s.targets, Seq::<nat>::empty()));
    } else if airframe_scan(doc, k) is Ok {
        let j = (k - 1) as nat;
        lemma_targets_sourced(doc, j);
        lemma_scan_depth(doc, j);
        lemma_tag_names_differ();
        let s = airframe_scan(doc, j)->Ok_0;
        let s2 = airframe_scan(doc, k)->Ok_0;
        let reads = choose|reads: Seq<nat>| #[trigger] targets_sourced(doc, j, s.targets, reads);
        let token = xml_event(doc, true, j)->Ok_0;
        assert(s2 == airframe_step(s, token)->Ok_0);
        if target_tag_at(doc, j) {
            let t = s2.targets.last();
            assert(s2.targets == s.targets.push(t));
            assert(target_declared_at(doc, j, t));
            let reads2 = reads.push(j);
            assert forall|x: nat| x < k && #[trigger] target_tag_at(doc, x) implies exists|i: int|
                0 <= i < reads2.len() && reads2[i] == x by {
                if x == j {
                    assert(reads2[reads.len() as int] == x);
                } else {
                    let i = choose|i: int| 0 <= i < reads.len() && reads[i] == x;
                    assert(reads2[i] == x);
                }
            }
            assert forall|a: int, b: int| 0 <= a < b < reads2.len() implies reads2[a] < reads2[b] by {
                if b == reads.len() {
                    assert(reads[a] < j);
                }
            }
            assert(targets_sourced(doc, k, s2.targets, reads2));
        } else {
            assert(s2.targets == s.targets);
            assert forall|x: nat| x < k && #[trigger] target_tag_at(doc, x) implies exists|i: int|
                0 <= i < reads.len() && reads[i] == x by {
                assert(x < j);
            }
            assert(targets_sourced(doc, k, s2.targets, reads));
        }
    }
}

/// The targets of a parsed airframe are exactly the targets of the `target`
/// tags (start or self-closing) inside the selected firmware, in document
/// order: target `i` is declared by such a tag at read `reads[i]`, the reads
/// increase, and every such tag read before the parse ends is one of them.
pub proof fn airframe_targets_are_the_firmware_target_tags(doc: Seq<char>, n: nat)
    requires
        airframe_ends_at(doc, n),
        airframe_outcome(doc, n) is Ok,
    ensures
        exists|reads: Seq<nat>| #[trigger] targets_sourced(doc, n + 1, airframe_outcome(doc, n)->Ok_0.targets, reads),
{
    lemma_targets_sourced(doc, n + 1);
    let s = airframe_scan(doc, n + 1)->Ok_0;
    assert(airframe_outcome(doc, n)->Ok_0.targets == s.targets);
}

/// Reads the attribute `name` of a tag, unescaped.
fn attribute(element: &XmlElement, name: &str) -> (r: Result<Option<String>, ParseError>)
    ensures
        match config_attribute(element@.1, element@.0.len(), name) {
            Ok(None) => r matches Ok(None),
            Ok(Some(v)) => r matches Ok(Some(text)) && text@ == v,
            Err(e) => r matches Err(err) && err@ == e,
        },
{
    match find_attribute(element, name.as_bytes()) {
        Err(msg) => Err(ParseError::Xml(msg)),
        Ok(None) => Ok(None),
        Ok(Some(raw)) => match unescape_value(raw.as_slice()) {
            Ok(text) => Ok(Some(text)),
            Err(msg) => Err(ParseError::Xml(msg)),
        },
    }
}

/// Reads the target that a `target` tag declares.
fn parse_target(element: &XmlElement) -> (r: Result<Target, ParseError>)
    ensures
        match target_definition(element@.1, element@.0.len()) {
            Ok(t) => r matches Ok(target) && target@ == t,
            Err(e) => r matches Err(err) && err@ == e,
        },
{
    let name = match attribute(element, "name") {
        Err(e) => return Err(e),
        Ok(None) => return Err(ParseError::MissingTargetAttribute("name")),
        Ok(Some(name)) => name,
    };
    let board = match attribute(element, "board") {
        Err(e) => return Err(e),
        Ok(None) => return Err(ParseError::MissingTargetAttribute("board")),
        Ok(Some(board)) => board,
    };
    Ok(Target { name, board })
}

/// The views of a sequence of targets.
pub open spec fn target_views(targets: Seq<Target>) -> Seq<TargetView> {
    targets.map_values(|t: Target| t@)
}

/// The view of an optional text.
pub open spec fn text_view(text: Option<String>) -> Option<Seq<char>> {
    match text {
        Some(t) => Some(t@),
        None => None,
    }
}

/// Parses the initial compatibility subset of a Paparazzi airframe XML file.
///
/// The subset reads the airframe name, the first firmware declaration, and
/// that firmware's targets. The document is read event by event with
/// `quick_xml`; the result is `airframe_outcome` at the read where the
/// parse ends.
pub fn parse_airframe(xml: &str) -> (r: Result<Airframe, ParseError>)
    ensures
        exists|n: nat|
            #[trigger] airframe_ends_at(xml@, n) && match airframe_outcome(xml@, n) {
                Ok(a) => r matches Ok(airframe) && airframe@ == a,
                Err(e) => r matches Err(err) && err@ == e,
            },
{
    let mut cursor = reader_from_str(xml);
    set_trim_text(&mut cursor);
    let mut buffer: Vec<u8> = Vec::new();
    let mut airframe_name: Option<String> = None;
    let mut firmware_name: Option<String> = None;
    let mut targets: Vec<Target> = Vec::new();
    let mut firmware_depth: usize = 0;
    assert(target_views(targets@) == Seq::<TargetView>::empty());
    loop
        invariant
            cursor@.doc == xml@,
            cursor@.trim,
            cursor@.reads <= cursor@.offset,
            cursor@.offset <= cursor@.limit,
            cursor@.limit <= usize::MAX,
            firmware_depth <= cursor@.reads,
            forall|k: nat| k < cursor@.reads ==> (#[trigger] xml_event(xml@, true, k) matches Ok(t) && !(t is Eof)),
            airframe_scan(xml@, cursor@.reads) == Ok::<AirframeScan, ParseErrorView>(AirframeScan {
                airframe_name: text_view(airframe_name),
                firmware_name: text_view(firmware_name),
                targets: target_views(targets@),
                depth: firmware_depth as nat,
            }),
        decreases cursor@.limit - cursor@.offset,
    {
        let ghost k = cursor@.reads;
        let ghost before = AirframeScan {
            airframe_name: text_view(airframe_name),
            firmware_name: text_view(firmware_name),
            targets: target_views(targets@),
            depth: firmware_depth as nat,
        };
        let event = match read_event(&mut cursor, &mut buffer) {
            Ok(event) => event,
            Err(msg) => {
                assert(airframe_ends_at(xml@, k));
                return Err(ParseError::Xml(msg));
            },
        };
        let ghost token = event.token();
        assert(airframe_scan(xml@, k + 1) == airframe_step(before, token));
        match event {
            XmlEvent::Start(element) => {
                if bytes_eq(element.name(), "airframe".as_bytes()) {
                    airframe_name = match attribute(&element, "name") {
                        Ok(v) => v,
                        Err(e) => {
                            assert(airframe_ends_at(xml@, k));
                            return Err(e);
                        },
                    };
                } else if bytes_eq(element.name(), "firmware".as_bytes()) && firmware_name.is_none() {
                    firmware_name = match attribute(&element, "name") {
                        Ok(v) => v,
                        Err(e) => {
                            assert(airframe_ends_at(xml@, k));
                            return Err(e);
                        },
                    };
                    firmware_depth = 1;
                } else if bytes_eq(element.name(), "firmware".as_bytes()) && firmware_depth > 0 {
                    firmware_depth = firmware_depth + 1;
                } else if bytes_eq(element.name(), "target".as_bytes()) && firmware_depth > 0 {
                    let target = match parse_target(&element) {
                        Ok(t) => t,
                        Err(e) => {
                            assert(airframe_ends_at(xml@, k));
                            return Err(e);
                        },
                    };
                    let ghost old_targets = targets@;
                    targets.push(target);
                    assert(target_views(targets@) == target_views(old_targets).push(target@));
                }
            },
            XmlEvent::Empty(element) => {
                if bytes_eq(element.name(), "target".as_bytes()) && firmware_depth > 0 {
                    let target = match parse_target(&element) {
                        Ok(t) => t,
                        Err(e) => {
                            assert(airframe_ends_at(xml@, k));
                            return Err(e);
                        },
                    };
                    let ghost old_targets = targets@;
                    targets.push(target);
                    assert(target_views(targets@) == target_views(old_targets).push(target@));
                }
            },
            XmlEvent::End(name) => {
                if bytes_eq(name.as_slice(), "firmware".as_bytes()) && firmware_depth > 0 {
                    firmware_depth = firmware_depth - 1;
                }
            },
            XmlEvent::Eof => {
                assert(airframe_ends_at(xml@, k));
                return assemble_airframe(airframe_name, firmware_name, targets);
            },
            XmlEvent::Other => {},
        }
        buffer.clear();
    }
}

} // verus!
