//! The descriptors that say what a program's streams are.
use vstd::prelude::*;
use vstd::string::*;

verus! {

/// The body of the first descriptor from `at` on that carries this tag.
pub open spec fn descriptor_from(descriptors: Seq<u8>, tag: u8, at: int) -> Option<Seq<u8>>
    decreases descriptors.len() - at,
{
    if at + 2 > descriptors.len() {
        None
    } else {
        let end = at + 2 + descriptors[at + 1];
        if end > descriptors.len() {
            None
        } else if descriptors[at] == tag {
            Some(descriptors.subrange(at + 2, end))
        } else {
            descriptor_from(descriptors, tag, end)
        }
    }
}

/// The body of the first descriptor carrying this tag.
pub open spec fn descriptor_of(descriptors: Seq<u8>, tag: u8) -> Option<Seq<u8>> {
    descriptor_from(descriptors, tag, 0)
}

/// The body of the first descriptor carrying this tag, without its own two
/// bytes of tag and length.
pub fn descriptor<'a>(descriptors: &'a [u8], tag: u8) -> (body: Option<&'a [u8]>)
    ensures
        match body {
            Some(bytes) => descriptor_of(descriptors@, tag) == Some(bytes@),
            None => descriptor_of(descriptors@, tag) is None,
        },
{
    let mut at: usize = 0;
    while descriptors.len() - at >= 2
        invariant
            at <= descriptors@.len(),
            descriptor_of(descriptors@, tag) == descriptor_from(descriptors@, tag, at as int),
        decreases descriptors@.len() - at,
    {
        let length: usize = descriptors[at + 1] as usize;
        if descriptors.len() - at - 2 < length {
            return None;
        }
        let end: usize = at + 2 + length;
        if descriptors[at] == tag {
            return Some(&descriptors[at + 2..end]);
        }
        at = end;
    }
    None
}

/// The component tag carried by an ARIB stream identifier descriptor.
pub open spec fn component_tag_of(descriptors: Seq<u8>) -> Option<u8> {
    match descriptor_of(descriptors, 0x52) {
        Some(body) if body.len() == 1 => Some(body[0]),
        _ => None,
    }
}

/// The component tag carried by an ARIB stream identifier descriptor.
pub fn component_tag(descriptors: &[u8]) -> (tag: Option<u8>)
    ensures
        tag == component_tag_of(descriptors@),
{
    match descriptor(descriptors, 0x52) {
        Some(body) => if body.len() == 1 {
            Some(body[0])
        } else {
            None
        },
        None => None,
    }
}

/// One sound stream a service offers, as its program map describes it.
///
/// A broadcast that carries a second sound sends it as a stream of its own
/// beside the first, and says which is which in the descriptors rather than by
/// the order it lists them in. Everything here comes from the map: nothing has
/// to be demuxed, so a caller can offer the choice before a byte of either has
/// been read.
#[derive(Clone, PartialEq, Eq, Debug)]
pub struct AudioStream {
    pub pid: u16,
    /// The ARIB stream identifier's component tag. A broadcast names its main
    /// sound 0x10 and the ones beside it 0x11 upwards, which is the only thing
    /// that distinguishes them where the languages are the same.
    pub component_tag: Option<u8>,
    /// Whether the stream's two channels are two separate services rather than
    /// a stereo pair. Which of the two is played is not a choice about the
    /// stream but a choice inside it.
    pub dual_mono: bool,
    /// The languages the descriptors name, in the order they name them. Dual
    /// mono carries the second service's language as a second entry, which is
    /// what a bilingual broadcast is announced as.
    pub languages: Vec<String>,
}

/// A sound stream as a mathematical value.
#[verifier::ext_equal]
pub struct AudioView {
    pub pid: u16,
    pub component_tag: Option<u8>,
    pub dual_mono: bool,
    pub languages: Seq<Seq<char>>,
}

/// Several texts.
pub open spec fn texts(strings: Seq<String>) -> Seq<Seq<char>> {
    Seq::new(strings.len(), |i: int| strings[i]@)
}

impl View for AudioStream {
    type V = AudioView;

    open spec fn view(&self) -> AudioView {
        AudioView {
            pid: self.pid,
            component_tag: self.component_tag,
            dual_mono: self.dual_mono,
            languages: texts(self.languages@),
        }
    }
}

/// Several sound streams.
pub open spec fn audio_views(streams: Seq<AudioStream>) -> Seq<AudioView> {
    Seq::new(streams.len(), |i: int| streams[i]@)
}

/// The byte is an ASCII letter.
pub open spec fn is_letter(b: u8) -> bool {
    65 <= b <= 90 || 97 <= b <= 122
}

/// The `n`th letter of the alphabet.
pub open spec fn nth_letter(n: int) -> Seq<char> {
    if n == 0 {
        "a"@
    } else if n == 1 {
        "b"@
    } else if n == 2 {
        "c"@
    } else if n == 3 {
        "d"@
    } else if n == 4 {
        "e"@
    } else if n == 5 {
        "f"@
    } else if n == 6 {
        "g"@
    } else if n == 7 {
        "h"@
    } else if n == 8 {
        "i"@
    } else if n == 9 {
        "j"@
    } else if n == 10 {
        "k"@
    } else if n == 11 {
        "l"@
    } else if n == 12 {
        "m"@
    } else if n == 13 {
        "n"@
    } else if n == 14 {
        "o"@
    } else if n == 15 {
        "p"@
    } else if n == 16 {
        "q"@
    } else if n == 17 {
        "r"@
    } else if n == 18 {
        "s"@
    } else if n == 19 {
        "t"@
    } else if n == 20 {
        "u"@
    } else if n == 21 {
        "v"@
    } else if n == 22 {
        "w"@
    } else if n == 23 {
        "x"@
    } else if n == 24 {
        "y"@
    } else {
        "z"@
    }
}

/// An ASCII letter in lower case.
pub open spec fn lower(b: u8) -> Seq<char> {
    nth_letter(
        if b >= 97 {
            b - 97
        } else {
            b - 65
        },
    )
}

/// The first `n` letters of a code in lower case.
pub open spec fn lower_text(code: Seq<u8>, n: nat) -> Seq<char>
    decreases n,
{
    if n == 0 {
        seq![]
    } else {
        lower_text(code, (n - 1) as nat) + lower(code[n - 1])
    }
}

/// The language that a code names, if it is made of letters.
pub open spec fn language(code: Seq<u8>) -> Seq<Seq<char>> {
    if forall|i: int| 0 <= i < code.len() ==> is_letter(#[trigger] code[i]) {
        seq![lower_text(code, code.len())]
    } else {
        seq![]
    }
}

/// The `n`th letter of the alphabet.
fn letter_str(n: u8) -> (letter: &'static str)
    requires
        n < 26,
    ensures
        letter@ == nth_letter(n as int),
{
    if n == 0 {
        "a"
    } else if n == 1 {
        "b"
    } else if n == 2 {
        "c"
    } else if n == 3 {
        "d"
    } else if n == 4 {
        "e"
    } else if n == 5 {
        "f"
    } else if n == 6 {
        "g"
    } else if n == 7 {
        "h"
    } else if n == 8 {
        "i"
    } else if n == 9 {
        "j"
    } else if n == 10 {
        "k"
    } else if n == 11 {
        "l"
    } else if n == 12 {
        "m"
    } else if n == 13 {
        "n"
    } else if n == 14 {
        "o"
    } else if n == 15 {
        "p"
    } else if n == 16 {
        "q"
    } else if n == 17 {
        "r"
    } else if n == 18 {
        "s"
    } else if n == 19 {
        "t"
    } else if n == 20 {
        "u"
    } else if n == 21 {
        "v"
    } else if n == 22 {
        "w"
    } else if n == 23 {
        "x"
    } else if n == 24 {
        "y"
    } else {
        "z"
    }
}

/// ISO 639 language codes are three ASCII letters. Anything else is a
/// descriptor that has been damaged or that this is not reading correctly, and
/// a label made of it would be worse than none.
pub fn language_code(code: &[u8]) -> (name: Option<String>)
    ensures
        match name {
            Some(text) => language(code@) == seq![text@],
            None => language(code@) == Seq::<Seq<char>>::empty(),
        },
{
    let mut name = String::new();
    let mut i: usize = 0;
    assert(name@ =~= lower_text(code@, 0));
    while i < code.len()
        invariant
            i <= code@.len(),
            name@ == lower_text(code@, i as nat),
            forall|j: int| 0 <= j < i ==> is_letter(#[trigger] code@[j]),
        decreases code@.len() - i,
    {
        let byte: u8 = code[i];
        if byte >= 97 && byte <= 122 {
            name.append(letter_str(byte - 97));
        } else if byte >= 65 && byte <= 90 {
            name.append(letter_str(byte - 65));
        } else {
            assert(!is_letter(code@[i as int]));
            return None;
        }
        i = i + 1;
    }
    Some(name)
}

/// Append the language that a code names, if it names one.
fn push_language(languages: &mut Vec<String>, code: &[u8])
    ensures
        texts(final(languages)@) == texts(old(languages)@) + language(code@),
{
    match language_code(code) {
        Some(text) => {
            let ghost view = text@;
            languages.push(text);
            assert(texts(languages@) =~= texts(old(languages)@) + seq![view]);
        },
        None => {
            assert(texts(languages@) + Seq::<Seq<char>>::empty() =~= texts(languages@));
        },
    }
}

/// The languages that the first `n` entries of an ISO 639 language descriptor name.
pub open spec fn listed_languages(body: Seq<u8>, n: nat) -> Seq<Seq<char>>
    decreases n,
{
    if n == 0 {
        seq![]
    } else {
        listed_languages(body, (n - 1) as nat) + language(body.subrange(4 * (n - 1), 4 * n - 1))
    }
}

/// The languages that the ARIB audio component descriptor names.
pub open spec fn component_languages(body: Seq<u8>) -> Seq<Seq<char>> {
    language(body.subrange(6, 9)) + if body[5] >= 128 && body.len() >= 12 {
        language(body.subrange(9, 12))
    } else {
        seq![]
    }
}

/// What a stream's descriptors say about the sound in it.
pub open spec fn audio_of(pid: u16, descriptors: Seq<u8>) -> AudioView {
    let own = component_tag_of(descriptors);
    let component = match descriptor_of(descriptors, 0xc4) {
        Some(body) if body.len() >= 9 => AudioView {
            pid,
            component_tag: if own is Some {
                own
            } else {
                Some(body[2])
            },
            dual_mono: body[1] == 0x02,
            languages: component_languages(body),
        },
        _ => AudioView { pid, component_tag: own, dual_mono: false, languages: seq![] },
    };
    match descriptor_of(descriptors, 0x0a) {
        Some(body) if component.languages.len() == 0 => AudioView {
            languages: listed_languages(body, body.len() / 4),
            ..component
        },
        _ => component,
    }
}

impl AudioStream {
    /// Read what one stream's descriptors say about the sound in it.
    ///
    /// The ARIB audio component descriptor is the one that answers everything
    /// at once (STD-B10 part 2, 6.2.26): its `component_type` says how many
    /// channels there are and whether they are one service or two, and its
    /// language codes -- a second one when `ES_multi_lingual_flag` is set --
    /// name what a viewer would be choosing between. A stream that carries only
    /// the ISO 639 language descriptor still gets its language from there.
    pub fn from_descriptors(pid: u16, descriptors: &[u8]) -> (stream: Self)
        ensures
            stream@ == audio_of(pid, descriptors@),
    {
        let mut languages: Vec<String> = Vec::new();
        let mut tag: Option<u8> = component_tag(descriptors);
        let mut dual_mono = false;
        assert(texts(languages@) =~= Seq::<Seq<char>>::empty());
        if let Some(body) = descriptor(descriptors, 0xc4) {
            if body.len() >= 9 {
                // 1/0 + 1/0 mode: two mono services in one stream.
                dual_mono = body[1] == 0x02;
                if tag.is_none() {
                    tag = Some(body[2]);
                }
                let multilingual: bool = body[5] >= 128;
                push_language(&mut languages, &body[6..9]);
                let ghost first = language(body@.subrange(6, 9));
                assert(texts(languages@) =~= first);
                if multilingual && body.len() >= 12 {
                    push_language(&mut languages, &body[9..12]);
                }
                assert(texts(languages@) =~= component_languages(body@));
            }
        }
        assert(texts(languages@).len() == languages@.len());
        if languages.len() == 0 {
            if let Some(body) = descriptor(descriptors, 0x0a) {
                let length: usize = body.len();
                let entries: usize = length / 4;
                let mut i: usize = 0;
                assert(texts(languages@) =~= listed_languages(body@, 0));
                while i < entries
                    invariant
                        i <= entries,
                        length == body@.len(),
                        entries == length / 4,
                        texts(languages@) == listed_languages(body@, i as nat),
                    decreases entries - i,
                {
                    push_language(&mut languages, &body[4 * i..4 * i + 3]);
                    i = i + 1;
                    assert(4 * (i - 1) + 3 == 4 * i - 1);
                }
            }
        }
        let stream = AudioStream { pid, component_tag: tag, dual_mono, languages };
        assert(stream@ =~= audio_of(pid, descriptors@));
        stream
    }
}

/// A stream of captions, or of characters superimposed on the picture.
#[derive(Clone, Copy, PartialEq, Eq, Debug, Structural)]
pub struct PrivateStream {
    pub is_async: bool,
    pub pid: u16,
}

/// The tag lies in the range or is the other one.
pub open spec fn tagged(tag: Option<u8>, low: u8, high: u8, other: u8) -> bool {
    tag matches Some(t) && (low <= t <= high || t == other)
}

/// The first stream from `i` on whose tag lies in the range or is the other one.
pub open spec fn first_tagged(
    streams: Seq<(u16, Option<u8>)>,
    low: u8,
    high: u8,
    other: u8,
    i: int,
) -> Option<u16>
    decreases streams.len() - i,
{
    if i >= streams.len() {
        None
    } else if tagged(streams[i].1, low, high, other) {
        Some(streams[i].0)
    } else {
        first_tagged(streams, low, high, other, i + 1)
    }
}

/// The stream that is the default of its kind, or else the first of its kind.
pub open spec fn preferred(streams: Seq<(u16, Option<u8>)>, low: u8, high: u8, other: u8) -> Option<
    u16,
> {
    match first_tagged(streams, low, low, other, 0) {
        Some(pid) => Some(pid),
        None => first_tagged(streams, low, high, other, 0),
    }
}

/// The stream that is there, if one is.
pub open spec fn private_stream(pid: Option<u16>, is_async: bool) -> Seq<PrivateStream> {
    match pid {
        Some(pid) => seq![PrivateStream { is_async, pid }],
        None => seq![],
    }
}

/// The caption stream and the superimposed one, as far as there are any.
pub open spec fn chosen_private(streams: Seq<(u16, Option<u8>)>) -> Seq<PrivateStream> {
    private_stream(preferred(streams, 0x30, 0x37, 0x87), false) + private_stream(
        preferred(streams, 0x38, 0x3f, 0x88),
        true,
    )
}

fn find_tagged(streams: &Vec<(u16, Option<u8>)>, low: u8, high: u8, other: u8) -> (pid: Option<u16>)
    ensures
        pid == first_tagged(streams@, low, high, other, 0),
{
    let mut i: usize = 0;
    while i < streams.len()
        invariant
            i <= streams@.len(),
            first_tagged(streams@, low, high, other, 0) == first_tagged(
                streams@,
                low,
                high,
                other,
                i as int,
            ),
        decreases streams@.len() - i,
    {
        if let Some(tag) = streams[i].1 {
            if (low <= tag && tag <= high) || tag == other {
                return Some(streams[i].0);
            }
        }
        i = i + 1;
    }
    None
}

fn find_preferred(streams: &Vec<(u16, Option<u8>)>, low: u8, high: u8, other: u8) -> (pid: Option<
    u16,
>)
    ensures
        pid == preferred(streams@, low, high, other),
{
    match find_tagged(streams, low, low, other) {
        Some(pid) => Some(pid),
        None => find_tagged(streams, low, high, other),
    }
}

/// Choose the caption stream and the superimposed one among a program's private
/// streams.
pub fn select_private_streams(streams: Vec<(u16, Option<u8>)>) -> (selected: Vec<PrivateStream>)
    ensures
        selected@ == chosen_private(streams@),
{
    let mut selected: Vec<PrivateStream> = Vec::new();
    if let Some(pid) = find_preferred(&streams, 0x30, 0x37, 0x87) {
        selected.push(PrivateStream { is_async: false, pid });
    }
    if let Some(pid) = find_preferred(&streams, 0x38, 0x3f, 0x88) {
        selected.push(PrivateStream { is_async: true, pid });
    }
    assert(selected@ =~= chosen_private(streams@));
    selected
}

} // verus!
