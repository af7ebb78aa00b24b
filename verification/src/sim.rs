//! Offline replay of recorded PPRZ byte streams.
use vstd::prelude::*;
use crate::messages::{
    field_kinds, field_layout, is_first_with_id, lemma_first_with_id_exists,
    lemma_layout_error_is_not_unknown, DecodeError, MessageDefinition, MessageDictionary,
};
use crate::text::{lemma_text_less_order, str_eq, str_less, text_less};
use crate::protocol::{
    accepted_frames, encode_all, idle_decoder, lemma_stream_roundtrip, rejected_count, run_decoder,
    Decoder, Frame, FrameView, MAX_PAYLOAD,
};

verus! {

/// The result of replaying a PPRZ byte stream offline.
#[derive(Clone, Debug, PartialEq, Eq)]
pub struct ReplayReport {
    /// Successfully decoded transport frames, in receive order.
    pub frames: Vec<Frame>,
    /// Complete frames rejected because their length or checksums were invalid.
    pub rejected_frames: usize,
}

/// The count of frames for one aircraft/message identifier pair.
#[derive(Clone, Copy, Debug, PartialEq, Eq)]
pub struct MessageCount {
    /// The aircraft identifier in the counted frames.
    pub aircraft_id: u8,
    /// The message identifier in the counted frames.
    pub message_id: u8,
    /// How many matching frames were accepted.
    pub count: usize,
}

/// The frames that replaying `bytes` accepts, in order.
pub open spec fn replay_frames(bytes: Seq<u8>) -> Seq<FrameView> {
    accepted_frames(run_decoder(idle_decoder(), bytes).1)
}

/// How many frames replaying `bytes` rejects.
pub open spec fn replay_rejected(bytes: Seq<u8>) -> nat {
    rejected_count(run_decoder(idle_decoder(), bytes).1)
}

/// The views of a sequence of frames.
pub open spec fn frame_views(frames: Seq<Frame>) -> Seq<FrameView> {
    frames.map_values(|f: Frame| f@)
}

/// How many of `frames` carry the aircraft and message identifiers `a` and `m`.
pub open spec fn key_count(frames: Seq<Frame>, a: u8, m: u8) -> nat
    decreases frames.len(),
{
    if frames.len() == 0 {
        0
    } else {
        key_count(frames.drop_last(), a, m) + if frames.last().aircraft_id == a && frames.last().message_id == m {
            1nat
        } else {
            0nat
        }
    }
}

/// The sum of the counts.
pub open spec fn total_count(counts: Seq<MessageCount>) -> int
    decreases counts.len(),
{
    if counts.len() == 0 {
        0
    } else {
        total_count(counts.drop_last()) + counts.last().count
    }
}

proof fn lemma_total_count_nonneg(counts: Seq<MessageCount>)
    ensures
        total_count(counts) >= 0,
    decreases counts.len(),
{
    if counts.len() > 0 {
        lemma_total_count_nonneg(counts.drop_last());
    }
}

proof fn lemma_total_count_insert(counts: Seq<MessageCount>, p: int, x: MessageCount)
    requires
        0 <= p <= counts.len(),
    ensures
        total_count(counts.insert(p, x)) == total_count(counts) + x.count,
    decreases counts.len(),
{
    let t = counts.insert(p, x);
    if p == counts.len() {
        assert(t.drop_last() == counts);
    } else {
        assert(t.drop_last() == counts.drop_last().insert(p, x));
        lemma_total_count_insert(counts.drop_last(), p, x);
    }
}

proof fn lemma_total_count_update(counts: Seq<MessageCount>, p: int, x: MessageCount)
    requires
        0 <= p < counts.len(),
    ensures
        total_count(counts.update(p, x)) == total_count(counts) - counts[p].count + x.count,
    decreases counts.len(),
{
    let t = counts.update(p, x);
    if p == counts.len() - 1 {
        assert(t.drop_last() == counts.drop_last());
    } else {
        assert(t.drop_last() == counts.drop_last().update(p, x));
        lemma_total_count_update(counts.drop_last(), p, x);
    }
}

/// The position of an identifier pair in (aircraft, message) order.
pub open spec fn key_rank(a: u8, m: u8) -> int {
    a * 256 + m
}

impl ReplayReport {
    /// Groups accepted frames by aircraft and message identifier, in
    /// ascending (aircraft, message) order. Every frame is counted once.
    pub fn message_counts(&self) -> (counts: Vec<MessageCount>)
        ensures
            forall|i: int, j: int|
                0 <= i < j < counts.len() ==> key_rank(counts[i].aircraft_id, counts[i].message_id) < key_rank(
                    counts[j].aircraft_id,
                    counts[j].message_id,
                ),
            forall|i: int|
                0 <= i < counts.len() ==> #[trigger] counts[i].count == key_count(
                    self.frames@,
                    counts[i].aircraft_id,
                    counts[i].message_id,
                ) && key_count(self.frames@, counts[i].aircraft_id, counts[i].message_id) > 0,
            forall|a: u8, m: u8|
                #[trigger] key_count(self.frames@, a, m) > 0 ==> exists|i: int|
                    0 <= i < counts.len() && counts[i].aircraft_id == a && counts[i].message_id == m,
            total_count(counts@) == self.frames@.len(),
    {
        let frames = &self.frames;
        let n = frames.len();
        let mut counts: Vec<MessageCount> = Vec::new();
        let mut i: usize = 0;
        while i < n
            invariant
                n == frames@.len(),
                frames@ == self.frames@,
                i <= n,
                forall|a: int, b: int|
                    0 <= a < b < counts.len() ==> key_rank(counts[a].aircraft_id, counts[a].message_id) < key_rank(
                        counts[b].aircraft_id,
                        counts[b].message_id,
                    ),
                forall|a: int|
                    0 <= a < counts.len() ==> #[trigger] counts[a].count == key_count(
                        frames@.take(i as int),
                        counts[a].aircraft_id,
                        counts[a].message_id,
                    ) && counts[a].count > 0 && counts[a].count <= i,
                forall|x: u8, y: u8|
                    #[trigger] key_count(frames@.take(i as int), x, y) > 0 ==> exists|a: int|
                        0 <= a < counts.len() && counts[a].aircraft_id == x && counts[a].message_id == y,
                total_count(counts@) == i,
            decreases n - i,
        {
            let fa = frames[i].aircraft_id;
            let fm = frames[i].message_id;
            let ghost prefix = frames@.take(i + 1);
            assert(prefix.drop_last() == frames@.take(i as int));
            assert(prefix.last() == frames@[i as int]);
            assert forall|x: u8, y: u8| #[trigger] key_count(prefix, x, y) == key_count(frames@.take(i as int), x, y)
                + if fa == x && fm == y { 1nat } else { 0nat } by {}
            let len = counts.len();
            let mut p: usize = 0;
            while p < len && (counts[p].aircraft_id < fa || (counts[p].aircraft_id == fa && counts[p].message_id < fm))
                invariant
                    len == counts.len(),
                    p <= len,
                    forall|a: int| 0 <= a < p ==> key_rank(counts[a].aircraft_id, counts[a].message_id) < key_rank(fa, fm),
                decreases len - p,
            {
                p = p + 1;
            }
            let ghost old_counts = counts@;
            proof {
                lemma_total_count_nonneg(counts@);
            }
            if p < len && counts[p].aircraft_id == fa && counts[p].message_id == fm {
                let updated = MessageCount { aircraft_id: fa, message_id: fm, count: counts[p].count + 1 };
                proof {
                    lemma_total_count_update(counts@, p as int, updated);
                }
                counts.set(p, updated);
                assert forall|x: u8, y: u8|
                    #[trigger] key_count(prefix, x, y) > 0 implies exists|a: int|
                        0 <= a < counts.len() && counts[a].aircraft_id == x && counts[a].message_id == y by {
                    if x != fa || y != fm {
                        let a = choose|a: int| 0 <= a < old_counts.len() && old_counts[a].aircraft_id == x && old_counts[a].message_id == y;
                        assert(counts[a].aircraft_id == x);
                    } else {
                        assert(counts[p as int].aircraft_id == x);
                    }
                }
            } else {
                let x = MessageCount { aircraft_id: fa, message_id: fm, count: 1 };
                proof {
                    lemma_total_count_insert(counts@, p as int, x);
                    assert forall|a: int| 0 <= a < len implies !(old_counts[a].aircraft_id == fa && old_counts[a].message_id == fm) by {
                        if a > p {
                            assert(key_rank(old_counts[p as int].aircraft_id, old_counts[p as int].message_id) < key_rank(
                                old_counts[a].aircraft_id, old_counts[a].message_id));
                        }
                    }
                }
                counts.insert(p, x);
                assert(counts@ == old_counts.insert(p as int, x));
                assert forall|x2: u8, y2: u8|
                    #[trigger] key_count(prefix, x2, y2) > 0 implies exists|a: int|
                        0 <= a < counts.len() && counts[a].aircraft_id == x2 && counts[a].message_id == y2 by {
                    if x2 != fa || y2 != fm {
                        let a = choose|a: int| 0 <= a < old_counts.len() && old_counts[a].aircraft_id == x2 && old_counts[a].message_id == y2;
                        if a < p {
                            assert(counts[a].aircraft_id == x2);
                        } else {
                            assert(counts[a + 1].aircraft_id == x2);
                        }
                    } else {
                        assert(counts[p as int].aircraft_id == x2);
                    }
                }
            }
            i = i + 1;
        }
        assert(frames@.take(n as int) == frames@);
        assert forall|x: u8, y: u8| #[trigger] key_count(self.frames@, x, y) > 0 implies exists|a: int|
            0 <= a < counts.len() && counts[a].aircraft_id == x && counts[a].message_id == y by {
            assert(key_count(frames@.take(n as int), x, y) > 0);
        }
        counts
    }
}

/// Decodes a recorded PPRZ byte stream without opening any device or network.
pub fn replay(bytes: Vec<u8>) -> (report: ReplayReport)
    ensures
        frame_views(report.frames@) == replay_frames(bytes@),
        report.rejected_frames == replay_rejected(bytes@),
{
    let mut decoder = Decoder::new();
    let mut frames: Vec<Frame> = Vec::new();
    let mut rejected_frames: usize = 0;
    let mut i: usize = 0;
    while i < bytes.len()
        invariant
            i <= bytes.len(),
            decoder@ == run_decoder(idle_decoder(), bytes@.take(i as int)).0,
            frame_views(frames@) == accepted_frames(run_decoder(idle_decoder(), bytes@.take(i as int)).1),
            rejected_frames == rejected_count(run_decoder(idle_decoder(), bytes@.take(i as int)).1),
            rejected_frames <= i,
        decreases bytes.len() - i,
    {
        let ghost prefix = bytes@.take(i as int + 1);
        assert(prefix.drop_last() == bytes@.take(i as int));
        assert(prefix.last() == bytes@[i as int]);
        let ghost old_frames = frames@;
        let ghost before = run_decoder(idle_decoder(), bytes@.take(i as int));
        let ghost after = run_decoder(idle_decoder(), prefix);
        assert(after.1.drop_last() == before.1);
        assert(after.1.last() == crate::protocol::decoder_step(before.0, bytes@[i as int]).1);
        match decoder.push(bytes[i]) {
            Ok(Some(frame)) => {
                frames.push(frame);
                assert(frame_views(frames@) == frame_views(old_frames).push(frame@));
            },
            Ok(None) => {},
            Err(_) => {
                rejected_frames = rejected_frames + 1;
            },
        }
        i = i + 1;
    }
    assert(bytes@.take(bytes.len() as int) == bytes@);
    ReplayReport { frames, rejected_frames }
}

/// Replaying the concatenated encodings of frames accepts exactly those
/// frames, in order, and rejects none.
pub proof fn replay_of_encoded_frames(frames: Seq<FrameView>)
    requires
        forall|i: int| 0 <= i < frames.len() ==> #[trigger] frames[i].payload.len() <= MAX_PAYLOAD,
    ensures
        replay_frames(encode_all(frames)) == frames,
        replay_rejected(encode_all(frames)) == 0,
{
    lemma_stream_roundtrip(frames);
}


/// How many decoded frames carried one message name.
#[derive(Clone, Debug, PartialEq, Eq)]
pub struct NameCount {
    /// The dictionary message name.
    pub name: String,
    /// How many frames decoded to a message of that name.
    pub count: usize,
}

/// What decoding the frames of a replay with a dictionary gives, in counts.
#[derive(Clone, Debug, PartialEq, Eq)]
pub struct DecodeSummary {
    /// Frames decoded, per message name, in ascending name order.
    pub decoded_by_name: Vec<NameCount>,
    /// Frames decoded, of any name.
    pub decoded: usize,
    /// Frames whose message identifier the dictionary does not define.
    pub unknown: usize,
    /// Frames whose payload did not fit their definition.
    pub malformed: usize,
}

/// How the decoding of one frame ends.
pub enum DecodeClass {
    /// Decoded to a message of this name.
    Decoded(Seq<char>),
    /// No definition has the frame's message identifier.
    Unknown,
    /// The payload does not fit the definition.
    Malformed,
}

/// How decoding `frame` with the definitions `messages` ends: decoded to a
/// message of the first definition with its identifier, unknown when there
/// is none, or malformed when its payload does not fit that definition.
pub open spec fn decode_class(messages: Seq<MessageDefinition>, frame: Frame) -> DecodeClass {
    if exists|i: int| is_first_with_id(messages, frame.message_id, i) {
        let i = choose|i: int| is_first_with_id(messages, frame.message_id, i);
        if field_layout(field_kinds(messages[i].fields@), frame.payload@) is Ok {
            DecodeClass::Decoded(messages[i].name@)
        } else {
            DecodeClass::Malformed
        }
    } else {
        DecodeClass::Unknown
    }
}

/// How many of `frames` end decoding as `class`.
pub open spec fn class_count(messages: Seq<MessageDefinition>, frames: Seq<Frame>, class: DecodeClass) -> nat
    decreases frames.len(),
{
    if frames.len() == 0 {
        0
    } else {
        class_count(messages, frames.drop_last(), class) + if decode_class(messages, frames.last()) == class {
            1nat
        } else {
            0nat
        }
    }
}

/// The sum of the per-name counts.
pub open spec fn names_total(entries: Seq<NameCount>) -> int
    decreases entries.len(),
{
    if entries.len() == 0 {
        0
    } else {
        names_total(entries.drop_last()) + entries.last().count
    }
}

proof fn lemma_names_total_nonneg(entries: Seq<NameCount>)
    ensures
        names_total(entries) >= 0,
    decreases entries.len(),
{
    if entries.len() > 0 {
        lemma_names_total_nonneg(entries.drop_last());
    }
}

proof fn lemma_names_total_insert(entries: Seq<NameCount>, p: int, x: NameCount)
    requires
        0 <= p <= entries.len(),
    ensures
        names_total(entries.insert(p, x)) == names_total(entries) + x.count,
    decreases entries.len(),
{
    let t = entries.insert(p, x);
    if p == entries.len() {
        assert(t.drop_last() == entries);
    } else {
        assert(t.drop_last() == entries.drop_last().insert(p, x));
        lemma_names_total_insert(entries.drop_last(), p, x);
    }
}

proof fn lemma_names_total_update(entries: Seq<NameCount>, p: int, x: NameCount)
    requires
        0 <= p < entries.len(),
    ensures
        names_total(entries.update(p, x)) == names_total(entries) - entries[p].count + x.count,
    decreases entries.len(),
{
    let t = entries.update(p, x);
    if p == entries.len() - 1 {
        assert(t.drop_last() == entries.drop_last());
    } else {
        assert(t.drop_last() == entries.drop_last().update(p, x));
        lemma_names_total_update(entries.drop_last(), p, x);
    }
}

/// Decodes every frame with the dictionary and counts the outcomes: the
/// decoded frames per message name, in ascending name order, the frames of
/// unknown messages and the malformed ones. Every frame is counted once.
pub fn summarize_decoding(dictionary: &MessageDictionary, frames: &[Frame]) -> (summary: DecodeSummary)
    ensures
        summary.unknown == class_count(dictionary@, frames@, DecodeClass::Unknown),
        summary.malformed == class_count(dictionary@, frames@, DecodeClass::Malformed),
        forall|i: int, j: int|
            0 <= i < j < summary.decoded_by_name.len() ==> text_less(
                summary.decoded_by_name[i].name@,
                summary.decoded_by_name[j].name@,
            ),
        forall|i: int|
            0 <= i < summary.decoded_by_name.len() ==> #[trigger] summary.decoded_by_name[i].count == class_count(
                dictionary@,
                frames@,
                DecodeClass::Decoded(summary.decoded_by_name[i].name@),
            ) && summary.decoded_by_name[i].count > 0,
        forall|name: Seq<char>|
            #[trigger] class_count(dictionary@, frames@, DecodeClass::Decoded(name)) > 0 ==> exists|i: int|
                0 <= i < summary.decoded_by_name.len() && summary.decoded_by_name[i].name@ == name,
        names_total(summary.decoded_by_name@) + summary.unknown + summary.malformed == frames@.len(),
        summary.decoded == names_total(summary.decoded_by_name@),
{
    let ghost messages = dictionary@;
    let n = frames.len();
    let mut entries: Vec<NameCount> = Vec::new();
    let mut unknown: usize = 0;
    let mut malformed: usize = 0;
    let mut i: usize = 0;
    while i < n
        invariant
            n == frames@.len(),
            messages == dictionary@,
            i <= n,
            unknown == class_count(messages, frames@.take(i as int), DecodeClass::Unknown),
            malformed == class_count(messages, frames@.take(i as int), DecodeClass::Malformed),
            forall|a: int, b: int| 0 <= a < b < entries.len() ==> text_less(entries[a].name@, entries[b].name@),
            forall|a: int|
                0 <= a < entries.len() ==> #[trigger] entries[a].count == class_count(
                    messages,
                    frames@.take(i as int),
                    DecodeClass::Decoded(entries[a].name@),
                ) && entries[a].count > 0 && entries[a].count <= i,
            forall|name: Seq<char>|
                #[trigger] class_count(messages, frames@.take(i as int), DecodeClass::Decoded(name)) > 0 ==> exists|a: int|
                    0 <= a < entries.len() && entries[a].name@ == name,
            names_total(entries@) + unknown + malformed == i,
        decreases n - i,
    {
        let frame = &frames[i];
        let ghost prefix = frames@.take(i + 1);
        assert(prefix.drop_last() == frames@.take(i as int));
        assert(prefix.last() == *frame);
        let ghost class = decode_class(messages, *frame);
        assert forall|c: DecodeClass| #[trigger] class_count(messages, prefix, c) == class_count(messages, frames@.take(i as int), c)
            + if class == c { 1nat } else { 0nat } by {}
        let result = dictionary.decode(frame);
        proof {
            lemma_names_total_nonneg(entries@);
            if exists|k: int| is_first_with_id(messages, frame.message_id, k) {
                let k = choose|k: int| is_first_with_id(messages, frame.message_id, k);
                lemma_layout_error_is_not_unknown(field_kinds(messages[k].fields@), frame.payload@);
            } else {
                assert forall|k: int| 0 <= k < messages.len() implies #[trigger] messages[k].id != frame.message_id by {
                    if messages[k].id == frame.message_id {
                        lemma_first_with_id_exists(messages, frame.message_id, k);
                    }
                }
            }
        }
        match result {
            Ok(message) => {
                assert(class == DecodeClass::Decoded(message.name@));
                let name = message.name;
                let len = entries.len();
                let mut p: usize = 0;
                while p < len && str_less(entries[p].name.as_str(), name.as_str())
                    invariant
                        len == entries.len(),
                        p <= len,
                        forall|a: int| 0 <= a < p ==> text_less(entries[a].name@, name@),
                    decreases len - p,
                {
                    p = p + 1;
                }
                let ghost old_entries = entries@;
                if p < len && str_eq(entries[p].name.as_str(), name.as_str()) {
                    let count = entries[p].count;
                    let updated = NameCount { name: entries[p].name.clone(), count: count + 1 };
                    proof {
                        lemma_names_total_update(entries@, p as int, updated);
                    }
                    entries.set(p, updated);
                    assert forall|nm: Seq<char>|
                        #[trigger] class_count(messages, prefix, DecodeClass::Decoded(nm)) > 0 implies exists|a: int|
                            0 <= a < entries.len() && entries[a].name@ == nm by {
                        if nm != name@ {
                            let a = choose|a: int| 0 <= a < old_entries.len() && old_entries[a].name@ == nm;
                            assert(entries[a].name@ == nm);
                        } else {
                            assert(entries[p as int].name@ == nm);
                        }
                    }
                } else {
                    let ghost x = NameCount { name, count: 1 };
                    proof {
                        lemma_names_total_insert(entries@, p as int, x);
                        if p < len {
                            lemma_text_less_order(entries@[p as int].name@, name@, name@);
                        }
                        assert forall|a: int| 0 <= a < len implies entries@[a].name@ != name@ by {
                            if a < p {
                                lemma_text_less_order(entries@[a].name@, name@, name@);
                            } else if a > p {
                                lemma_text_less_order(name@, entries@[p as int].name@, entries@[a].name@);
                                lemma_text_less_order(entries@[a].name@, entries@[a].name@, entries@[a].name@);
                            }
                        }
                    }
                    entries.insert(p, NameCount { name, count: 1 });
                    assert(entries@ == old_entries.insert(p as int, x));
                    assert forall|a: int, b: int| 0 <= a < b < entries.len() implies text_less(entries[a].name@, entries[b].name@) by {
                        if a < p && b == p {
                        } else if a < p && b > p {
                            lemma_text_less_order(old_entries[a].name@, name@, old_entries[b - 1].name@);
                            if p < len {
                                lemma_text_less_order(name@, old_entries[p as int].name@, old_entries[b - 1].name@);
                            }
                        } else if a == p {
                            if p < len {
                                lemma_text_less_order(name@, old_entries[p as int].name@, old_entries[b - 1].name@);
                            }
                        }
                    }
                    assert forall|nm: Seq<char>|
                        #[trigger] class_count(messages, prefix, DecodeClass::Decoded(nm)) > 0 implies exists|a: int|
                            0 <= a < entries.len() && entries[a].name@ == nm by {
                        if nm != name@ {
                            let a = choose|a: int| 0 <= a < old_entries.len() && old_entries[a].name@ == nm;
                            if a < p {
                                assert(entries[a].name@ == nm);
                            } else {
                                assert(entries[a + 1].name@ == nm);
                            }
                        } else {
                            assert(entries[p as int].name@ == nm);
                        }
                    }
                }
            },
            Err(DecodeError::UnknownMessage(_)) => {
                assert(class == DecodeClass::Unknown);
                unknown = unknown + 1;
            },
            Err(_) => {
                assert(class == DecodeClass::Malformed);
                malformed = malformed + 1;
            },
        }
        i = i + 1;
    }
    assert(frames@.take(n as int) == frames@);
    assert forall|name: Seq<char>|
        #[trigger] class_count(dictionary@, frames@, DecodeClass::Decoded(name)) > 0 implies exists|a: int|
            0 <= a < entries.len() && entries[a].name@ == name by {
        assert(class_count(messages, frames@.take(n as int), DecodeClass::Decoded(name)) > 0);
    }
    proof {
        lemma_names_total_nonneg(entries@);
    }
    let decoded = n - unknown - malformed;
    let summary = DecodeSummary { decoded_by_name: entries, decoded, unknown, malformed };
    assert forall|name: Seq<char>|
        #[trigger] class_count(dictionary@, frames@, DecodeClass::Decoded(name)) > 0 implies exists|a: int|
            0 <= a < summary.decoded_by_name.len() && summary.decoded_by_name[a].name@ == name by {
        let a = choose|a: int| 0 <= a < summary.decoded_by_name@.len() && summary.decoded_by_name@[a].name@ == name;
        assert(summary.decoded_by_name[a].name@ == name);
    }
    summary
}

/// Counts frames in an offline replay stream.
pub fn frame_count(frames: &[Frame]) -> (n: usize)
    ensures
        n == frames@.len(),
{
    frames.len()
}

} // verus!
