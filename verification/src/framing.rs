//! Byte-stream framing.
//!
//! Raw chunks from the transport are cut into discrete frames by one of four
//! strategies, selected per port:
//!
//!   - delimiter: cut after a byte sequence (a newline by default)
//!   - fixed: every frame has the same length
//!   - length-prefixed: a header field declares the length
//!   - idle timeout: no boundary in the bytes; a quiet gap ends the frame
//!
//! `FramingSpec` is immutable. The buffer of bytes that no frame has taken yet
//! belongs to the caller and is handed to `push` and `on_idle`, so that a spec
//! can be replaced without disturbing the bytes in flight.
use crate::bytes::Bytes;
use crate::outside;
use crate::text;
use std::time::Duration;
use vstd::prelude::*;

verus! {

/// The largest partial frame that is buffered before it is flushed as one
/// frame, so that a stream without frame boundaries cannot grow without bound.
pub const DEFAULT_MAX_BUFFER: usize = 4096;

/// Byte order of a length field.
#[derive(Debug, Clone, Copy, PartialEq, Eq, Structural)]
pub enum Endian {
    Big,
    Little,
}

impl Default for Endian {
    fn default() -> (r: Endian)
        ensures
            r == Endian::Big,
    {
        Endian::Big
    }
}

/// What a length field counts.
#[derive(Debug, Clone, Copy, PartialEq, Eq, Structural)]
pub enum LengthIncludes {
    /// Only the payload bytes.
    Payload,
    /// The entire frame: header, payload and trailer.
    Frame,
}

impl Default for LengthIncludes {
    fn default() -> (r: LengthIncludes)
        ensures
            r == LengthIncludes::Payload,
    {
        LengthIncludes::Payload
    }
}

/// The configured framing of a port.
#[derive(Debug, Clone)]
pub enum FramingConfig {
    Delimiter { delimiter: Bytes, include_delimiter: bool },
    Fixed { length: usize },
    LengthPrefixed {
        header_size: usize,
        length_offset: usize,
        length_size: usize,
        length_endian: Endian,
        length_includes: LengthIncludes,
        trailer_size: usize,
    },
    IdleTimeout { quiet_ms: u64 },
}

/// Whether a delimiter is kept when the configuration does not say.
pub fn default_true() -> (r: bool)
    ensures
        r,
{
    true
}

impl FramingConfig {
    /// Why the parameters make no sense, if they do not.
    pub open spec fn problem(&self) -> Option<Seq<char>> {
        match self {
            FramingConfig::Delimiter { delimiter, .. } => if delimiter@.len() == 0 {
                Some("framing delimiter must be at least one byte"@)
            } else {
                None
            },
            FramingConfig::Fixed { length } => if *length == 0 {
                Some("framing fixed length must be greater than zero"@)
            } else {
                None
            },
            FramingConfig::LengthPrefixed { length_size, .. } => if *length_size != 1
                && *length_size != 2 && *length_size != 4 {
                Some(
                    "framing length_size must be 1, 2, or 4 (got "@ + text::decimal(
                        *length_size as nat,
                    ) + ")"@,
                )
            } else {
                None
            },
            FramingConfig::IdleTimeout { quiet_ms } => if *quiet_ms == 0 {
                Some("framing quiet_ms must be greater than zero"@)
            } else {
                None
            },
        }
    }

    /// Rejects parameters that make no sense, when the configuration is loaded.
    pub fn validate(&self) -> (r: Result<(), String>)
        ensures
            match r {
                Ok(()) => self.problem() is None,
                Err(e) => self.problem() == Some(e@),
            },
    {
        match self {
            FramingConfig::Delimiter { delimiter, .. } => {
                if delimiter.0.len() == 0 {
                    return Err("framing delimiter must be at least one byte".to_owned());
                }
            },
            FramingConfig::Fixed { length } => {
                if *length == 0 {
                    return Err("framing fixed length must be greater than zero".to_owned());
                }
            },
            FramingConfig::LengthPrefixed { length_size, .. } => {
                if *length_size != 1 && *length_size != 2 && *length_size != 4 {
                    let mut e = "framing length_size must be 1, 2, or 4 (got ".to_owned();
                    e.append(text::decimal_text(*length_size as u64).as_str());
                    e.append(")");
                    return Err(e);
                }
            },
            FramingConfig::IdleTimeout { quiet_ms } => {
                if *quiet_ms == 0 {
                    return Err("framing quiet_ms must be greater than zero".to_owned());
                }
            },
        }
        Ok(())
    }
}

// ---------------------------------------------------------------------------
// Searching and reading numbers
// ---------------------------------------------------------------------------

/// Whether `needle` stands in `haystack` at `i`.
pub open spec fn occurs_at(haystack: Seq<u8>, needle: Seq<u8>, i: int) -> bool {
    0 <= i && i + needle.len() <= haystack.len() && haystack.subrange(i, i + needle.len())
        == needle
}

/// Whether `i` is the first place at which `needle` stands in `haystack`.
pub open spec fn first_at(haystack: Seq<u8>, needle: Seq<u8>, i: int) -> bool {
    occurs_at(haystack, needle, i) && forall|j: int|
        0 <= j < i ==> !#[trigger] occurs_at(haystack, needle, j)
}

/// The first place of `needle` in `haystack`. An empty needle is never found.
pub open spec fn find(haystack: Seq<u8>, needle: Seq<u8>) -> Option<int> {
    if needle.len() > 0 && exists|i: int| first_at(haystack, needle, i) {
        Some(choose|i: int| first_at(haystack, needle, i))
    } else {
        None
    }
}

/// There is only one first place.
pub proof fn lemma_find(haystack: Seq<u8>, needle: Seq<u8>, i: int)
    requires
        needle.len() > 0,
        first_at(haystack, needle, i),
    ensures
        find(haystack, needle) == Some(i),
{
    let k = choose|k: int| first_at(haystack, needle, k);
    assert(first_at(haystack, needle, k));
    if k < i {
        assert(!occurs_at(haystack, needle, k));
    }
    if i < k {
        assert(!occurs_at(haystack, needle, i));
    }
}

/// The first index of `needle` within `haystack`, if it occurs.
pub fn find_subslice(haystack: &[u8], needle: &[u8]) -> (r: Option<usize>)
    ensures
        match r {
            Some(i) => find(haystack@, needle@) == Some(i as int) && i + needle.len()
                <= haystack.len(),
            None => find(haystack@, needle@) is None,
        },
{
    if needle.len() == 0 || haystack.len() < needle.len() {
        return None;
    }
    let mut i: usize = 0;
    let last: usize = haystack.len() - needle.len();
    while i <= last
        invariant
            needle@.len() > 0,
            haystack.len() >= needle.len(),
            last == haystack.len() - needle.len(),
            i <= last + 1,
            forall|j: int| 0 <= j < i ==> !#[trigger] occurs_at(haystack@, needle@, j),
        decreases last + 1 - i,
    {
        if text::same_bytes(&haystack[i..i + needle.len()], needle) {
            proof {
                assert(first_at(haystack@, needle@, i as int));
                lemma_find(haystack@, needle@, i as int);
            }
            return Some(i);
        }
        i = i + 1;
    }
    None
}

/// The number that bytes denote, most significant byte first.
pub open spec fn be_value(bytes: Seq<u8>) -> nat
    decreases bytes.len(),
{
    if bytes.len() == 0 {
        0
    } else {
        be_value(bytes.drop_last()) * 256 + bytes.last() as nat
    }
}

/// The number that bytes denote in the given byte order, modulo 2 to the 64.
pub open spec fn uint_value(bytes: Seq<u8>, endian: Endian) -> nat {
    match endian {
        Endian::Big => be_value(bytes) % 0x1_0000_0000_0000_0000nat,
        Endian::Little => be_value(bytes.reverse()) % 0x1_0000_0000_0000_0000nat,
    }
}

/// `(v << 8) | b` appends a byte to a number, modulo 2 to the 64.
proof fn lemma_append_byte(high: nat, v: u64, b: u8)
    requires
        v == high % 0x1_0000_0000_0000_0000nat,
    ensures
        ((v << 8) | b as u64) == (high * 256 + b as nat) % 0x1_0000_0000_0000_0000nat,
{
    let w = v & 0x00ff_ffff_ffff_ffffu64;
    assert((v << 8) | b as u64 == w * 256 + b as u64) by (bit_vector)
        requires
            w == v & 0x00ff_ffff_ffff_ffffu64,
    ;
    assert(w == v % 0x0100_0000_0000_0000u64) by (bit_vector)
        requires
            w == v & 0x00ff_ffff_ffff_ffffu64,
    ;
    let q = (high / 0x0100_0000_0000_0000nat) as int;
    let r = (high % 0x0100_0000_0000_0000nat) as int;
    assert(high == q * 0x0100_0000_0000_0000 + r);
    assert(w == r);
    assert(high * 256 + b as nat == q * 0x1_0000_0000_0000_0000 + (r * 256 + b as int));
}

/// Reads an unsigned integer with the given byte order.
pub fn read_uint(bytes: &[u8], endian: Endian) -> (r: u64)
    requires
        endian == Endian::Little ==> bytes@.len() <= 8,
    ensures
        r == uint_value(bytes@, endian),
{
    let mut v: u64 = 0;
    match endian {
        Endian::Big => {
            let mut i: usize = 0;
            while i < bytes.len()
                invariant
                    i <= bytes.len(),
                    v == be_value(bytes@.take(i as int)) % 0x1_0000_0000_0000_0000nat,
                decreases bytes.len() - i,
            {
                proof {
                    lemma_append_byte(be_value(bytes@.take(i as int)), v, bytes@[i as int]);
                    assert(bytes@.take(i + 1).drop_last() =~= bytes@.take(i as int));
                }
                v = (v << 8) | bytes[i] as u64;
                i = i + 1;
            }
            assert(bytes@.take(i as int) =~= bytes@);
        },
        Endian::Little => {
            let mut i: usize = bytes.len();
            let ghost rev = bytes@.reverse();
            while i > 0
                invariant
                    i <= bytes.len(),
                    rev == bytes@.reverse(),
                    v == be_value(rev.take(bytes.len() - i)) % 0x1_0000_0000_0000_0000nat,
                decreases i,
            {
                proof {
                    let k = bytes.len() - i;
                    lemma_append_byte(be_value(rev.take(k)), v, rev[k]);
                    assert(rev.take(k + 1).drop_last() =~= rev.take(k));
                }
                i = i - 1;
                v = (v << 8) | bytes[i] as u64;
            }
            assert(rev.take(bytes.len() - i) =~= rev);
        },
    }
    v
}

// ---------------------------------------------------------------------------
// Specs
// ---------------------------------------------------------------------------

/// A framing strategy.
pub enum StrategyView {
    Delimiter { delim: Seq<u8>, keep: bool },
    Fixed { len: nat },
    LengthPrefixed {
        header_size: nat,
        length_offset: nat,
        length_size: nat,
        endian: Endian,
        includes: LengthIncludes,
        trailer_size: nat,
    },
    IdleTimeout,
}

/// What a `FramingSpec` holds.
pub struct FramingView {
    pub strategy: StrategyView,
    /// The largest number of bytes that stay buffered.
    pub max_buffer: nat,
    /// The quiet gap that ends a frame.
    pub quiet_ms: Option<u64>,
}

/// What a strategy does next with the bytes that have accumulated.
pub enum Cut {
    /// No frame is complete.
    Wait,
    /// The bytes make no sense: all of them become one frame.
    Flush,
    /// The first `len` bytes are a frame; the first `consumed` bytes are done with.
    Frame { len: nat, consumed: nat },
}

impl StrategyView {
    /// The value of the length field of a length-prefixed frame, as a size.
    pub open spec fn length_field(self, buf: Seq<u8>) -> nat {
        match self {
            StrategyView::LengthPrefixed { length_offset, length_size, endian, .. } => (uint_value(
                buf.subrange(length_offset as int, (length_offset + length_size) as int),
                endian,
            ) as u64) as usize as nat,
            _ => 0,
        }
    }

    /// The length that a length-prefixed frame declares for itself.
    pub open spec fn declared(self, buf: Seq<u8>) -> nat {
        match self {
            StrategyView::LengthPrefixed {
                header_size,
                includes: LengthIncludes::Payload,
                trailer_size,
                ..
            } => header_size + self.length_field(buf) + trailer_size,
            _ => self.length_field(buf),
        }
    }

    /// What the strategy does next with `buf`.
    pub open spec fn cut(self, buf: Seq<u8>) -> Cut {
        match self {
            StrategyView::Delimiter { delim, keep } => match find(buf, delim) {
                None => Cut::Wait,
                Some(pos) => Cut::Frame {
                    len: if keep {
                        (pos + delim.len()) as nat
                    } else {
                        pos as nat
                    },
                    consumed: (pos + delim.len()) as nat,
                },
            },
            StrategyView::Fixed { len } => if buf.len() >= len {
                Cut::Frame { len, consumed: len }
            } else {
                Cut::Wait
            },
            StrategyView::LengthPrefixed { length_offset, length_size, .. } => {
                let needed = length_offset + length_size;
                let total = self.declared(buf);
                if buf.len() < needed {
                    Cut::Wait
                } else if total == 0 || total < needed {
                    Cut::Flush
                } else if buf.len() < total {
                    Cut::Wait
                } else {
                    Cut::Frame { len: total, consumed: total }
                }
            },
            StrategyView::IdleTimeout => Cut::Wait,
        }
    }

    /// Whether the next cut can be computed: a fixed length is not zero, and
    /// the sizes of a length-prefixed frame do not exceed what a size can hold.
    pub open spec fn computable(self, buf: Seq<u8>) -> bool {
        match self {
            StrategyView::Fixed { len } => len > 0,
            StrategyView::LengthPrefixed { length_offset, length_size, endian, .. } => {
                &&& length_offset + length_size <= usize::MAX
                &&& buf.len() >= length_offset + length_size ==> {
                    &&& endian == Endian::Little ==> length_size <= 8
                    &&& self.declared(buf) <= usize::MAX
                }
            },
            _ => true,
        }
    }

    /// Whether every cut that `buf` asks for can be computed.
    pub open spec fn fits(self, buf: Seq<u8>) -> bool
        decreases buf.len(),
    {
        self.computable(buf) && match self.cut(buf) {
            Cut::Frame { consumed, .. } if 0 < consumed <= buf.len() => self.fits(
                buf.skip(consumed as int),
            ),
            _ => true,
        }
    }

    /// The complete frames at the front of `buf`, and the bytes that remain.
    pub open spec fn drained(self, buf: Seq<u8>) -> (Seq<Seq<u8>>, Seq<u8>)
        decreases buf.len(),
    {
        match self.cut(buf) {
            Cut::Flush => (seq![buf], seq![]),
            Cut::Frame { len, consumed } if 0 < consumed <= buf.len() => {
                let (frames, rest) = self.drained(buf.skip(consumed as int));
                (seq![buf.take(len as int)] + frames, rest)
            },
            _ => (seq![], buf),
        }
    }
}

impl FramingView {
    /// A quiet gap is waited for exactly when it ends a frame.
    pub open spec fn wf(self) -> bool {
        self.quiet_ms is Some <==> self.strategy is IdleTimeout
    }

    /// What `push` does: the frames that it completes, and the bytes that stay
    /// buffered. A remainder that is too long becomes a frame of its own.
    pub open spec fn pushed(self, buf: Seq<u8>, chunk: Seq<u8>) -> (Seq<Seq<u8>>, Seq<u8>) {
        let (frames, rest) = self.strategy.drained(buf + chunk);
        if rest.len() > self.max_buffer {
            (frames.push(rest), seq![])
        } else {
            (frames, rest)
        }
    }

    /// What `on_idle` does: the frames that it completes, and the bytes that
    /// stay buffered.
    pub open spec fn idled(self, buf: Seq<u8>) -> (Seq<Seq<u8>>, Seq<u8>) {
        if self.strategy is IdleTimeout && buf.len() > 0 {
            (seq![buf], seq![])
        } else {
            (seq![], buf)
        }
    }
}

/// The newline-delimited framing of a port that configures none.
pub open spec fn default_framing() -> FramingView {
    FramingView {
        strategy: StrategyView::Delimiter { delim: seq![10u8], keep: true },
        max_buffer: DEFAULT_MAX_BUFFER as nat,
        quiet_ms: None,
    }
}

/// The framing that a configuration asks for.
pub open spec fn configured_framing(cfg: Option<&FramingConfig>) -> FramingView {
    match cfg {
        None => default_framing(),
        Some(FramingConfig::Delimiter { delimiter, include_delimiter }) => FramingView {
            strategy: StrategyView::Delimiter { delim: delimiter@, keep: *include_delimiter },
            max_buffer: DEFAULT_MAX_BUFFER as nat,
            quiet_ms: None,
        },
        Some(FramingConfig::Fixed { length }) => FramingView {
            strategy: StrategyView::Fixed { len: *length as nat },
            max_buffer: if *length > DEFAULT_MAX_BUFFER {
                *length as nat
            } else {
                DEFAULT_MAX_BUFFER as nat
            },
            quiet_ms: None,
        },
        Some(
            FramingConfig::LengthPrefixed {
                header_size,
                length_offset,
                length_size,
                length_endian,
                length_includes,
                trailer_size,
            },
        ) => FramingView {
            strategy: StrategyView::LengthPrefixed {
                header_size: *header_size as nat,
                length_offset: *length_offset as nat,
                length_size: *length_size as nat,
                endian: *length_endian,
                includes: *length_includes,
                trailer_size: *trailer_size as nat,
            },
            max_buffer: DEFAULT_MAX_BUFFER as nat,
            quiet_ms: None,
        },
        Some(FramingConfig::IdleTimeout { quiet_ms }) => FramingView {
            strategy: StrategyView::IdleTimeout,
            max_buffer: DEFAULT_MAX_BUFFER as nat,
            quiet_ms: Some(*quiet_ms),
        },
    }
}

/// The contents of a list of frames.
pub open spec fn frames_of(list: Seq<Vec<u8>>) -> Seq<Seq<u8>> {
    list.map_values(|f: Vec<u8>| f@)
}

#[derive(Debug)]
enum Strategy {
    Delimiter { delim: Vec<u8>, keep: bool },
    Fixed { len: usize },
    LengthPrefixed {
        header_size: usize,
        length_offset: usize,
        length_size: usize,
        endian: Endian,
        includes: LengthIncludes,
        trailer_size: usize,
    },
    /// Accumulates; only `on_idle` emits frames.
    IdleTimeout,
}

impl View for Strategy {
    type V = StrategyView;

    closed spec fn view(&self) -> StrategyView {
        match self {
            Strategy::Delimiter { delim, keep } => StrategyView::Delimiter {
                delim: delim@,
                keep: *keep,
            },
            Strategy::Fixed { len } => StrategyView::Fixed { len: *len as nat },
            Strategy::LengthPrefixed {
                header_size,
                length_offset,
                length_size,
                endian,
                includes,
                trailer_size,
            } => StrategyView::LengthPrefixed {
                header_size: *header_size as nat,
                length_offset: *length_offset as nat,
                length_size: *length_size as nat,
                endian: *endian,
                includes: *includes,
                trailer_size: *trailer_size as nat,
            },
            Strategy::IdleTimeout => StrategyView::IdleTimeout,
        }
    }
}

impl Clone for Strategy {
    fn clone(&self) -> (r: Strategy)
        ensures
            r@ == self@,
    {
        match self {
            Strategy::Delimiter { delim, keep } => Strategy::Delimiter {
                delim: delim.clone(),
                keep: *keep,
            },
            Strategy::Fixed { len } => Strategy::Fixed { len: *len },
            Strategy::LengthPrefixed {
                header_size,
                length_offset,
                length_size,
                endian,
                includes,
                trailer_size,
            } => Strategy::LengthPrefixed {
                header_size: *header_size,
                length_offset: *length_offset,
                length_size: *length_size,
                endian: *endian,
                includes: *includes,
                trailer_size: *trailer_size,
            },
            Strategy::IdleTimeout => Strategy::IdleTimeout,
        }
    }
}

/// An immutable framing strategy. The byte buffer belongs to the caller.
#[derive(Debug)]
pub struct FramingSpec {
    strategy: Strategy,
    max_buffer: usize,
    quiet_ms: Option<u64>,
}

impl View for FramingSpec {
    type V = FramingView;

    closed spec fn view(&self) -> FramingView {
        FramingView {
            strategy: self.strategy@,
            max_buffer: self.max_buffer as nat,
            quiet_ms: self.quiet_ms,
        }
    }
}

impl FramingSpec {
    #[verifier::type_invariant]
    spec fn inv(self) -> bool {
        self@.wf()
    }
}

impl Clone for FramingSpec {
    fn clone(&self) -> (r: FramingSpec)
        ensures
            r@ == self@,
    {
        proof {
            use_type_invariant(self);
        }
        FramingSpec {
            strategy: self.strategy.clone(),
            max_buffer: self.max_buffer,
            quiet_ms: self.quiet_ms,
        }
    }
}

impl Default for FramingSpec {
    /// Newline-delimited, terminator included.
    fn default() -> (r: FramingSpec)
        ensures
            r@ == default_framing(),
    {
        let delim: Vec<u8> = vec![10u8];
        assert(delim@ =~= seq![10u8]);
        FramingSpec {
            strategy: Strategy::Delimiter { delim, keep: true },
            max_buffer: DEFAULT_MAX_BUFFER,
            quiet_ms: None,
        }
    }
}

/// What to do next with the buffered bytes.
enum Step {
    Wait,
    Flush,
    Frame { len: usize, consumed: usize },
}

impl Step {
    spec fn is(self, cut: Cut) -> bool {
        match self {
            Step::Wait => cut == Cut::Wait,
            Step::Flush => cut == Cut::Flush,
            Step::Frame { len, consumed } => cut == (Cut::Frame {
                len: len as nat,
                consumed: consumed as nat,
            }),
        }
    }
}

/// A frame takes at least one byte, and no more than there are.
pub proof fn lemma_cut_bounds(strategy: StrategyView, buf: Seq<u8>)
    requires
        strategy.computable(buf),
    ensures
        strategy.cut(buf) matches Cut::Frame { len, consumed } ==> 0 < consumed <= buf.len() && len
            <= consumed,
{
    if let StrategyView::Delimiter { delim, keep } = strategy {
        if let Some(pos) = find(buf, delim) {
            assert(first_at(buf, delim, pos));
        }
    }
}

impl FramingSpec {
    /// The framing that a configuration asks for, newline-delimited by default.
    pub fn from_config(cfg: Option<&FramingConfig>) -> (r: FramingSpec)
        ensures
            r@ == configured_framing(cfg),
    {
        let Some(cfg) = cfg else {
            return FramingSpec::default();
        };
        match cfg {
            FramingConfig::Delimiter { delimiter, include_delimiter } => FramingSpec {
                strategy: Strategy::Delimiter {
                    delim: delimiter.0.clone(),
                    keep: *include_delimiter,
                },
                max_buffer: DEFAULT_MAX_BUFFER,
                quiet_ms: None,
            },
            FramingConfig::Fixed { length } => FramingSpec {
                strategy: Strategy::Fixed { len: *length },
                max_buffer: if *length > DEFAULT_MAX_BUFFER {
                    *length
                } else {
                    DEFAULT_MAX_BUFFER
                },
                quiet_ms: None,
            },
            FramingConfig::LengthPrefixed {
                header_size,
                length_offset,
                length_size,
                length_endian,
                length_includes,
                trailer_size,
            } => FramingSpec {
                strategy: Strategy::LengthPrefixed {
                    header_size: *header_size,
                    length_offset: *length_offset,
                    length_size: *length_size,
                    endian: *length_endian,
                    includes: *length_includes,
                    trailer_size: *trailer_size,
                },
                max_buffer: DEFAULT_MAX_BUFFER,
                quiet_ms: None,
            },
            FramingConfig::IdleTimeout { quiet_ms } => FramingSpec {
                strategy: Strategy::IdleTimeout,
                max_buffer: DEFAULT_MAX_BUFFER,
                quiet_ms: Some(*quiet_ms),
            },
        }
    }

    /// The quiet period after which `on_idle` should be called, if the
    /// strategy is driven by silence. `None` means to block on reading.
    pub fn idle_timeout(&self) -> (r: Option<Duration>)
        ensures
            r == (match self@.quiet_ms {
                Some(millis) => Some(outside::millis_duration(millis)),
                None => None,
            }),
            r is Some <==> self@.strategy is IdleTimeout,
    {
        proof {
            use_type_invariant(self);
        }
        match self.quiet_ms {
            Some(millis) => Some(Duration::from_millis(millis)),
            None => None,
        }
    }

    /// The next cut, or `None` where a size would exceed what a size can hold.
    fn next_step(&self, buf: &[u8]) -> (r: Option<Step>)
        ensures
            r is Some <==> self@.strategy.computable(buf@),
            r matches Some(step) ==> step.is(self@.strategy.cut(buf@)),
    {
        match &self.strategy {
            Strategy::Delimiter { delim, keep } => match find_subslice(buf, delim.as_slice()) {
                None => Some(Step::Wait),
                Some(pos) => {
                    let end = pos + delim.len();
                    Some(Step::Frame { len: if *keep { end } else { pos }, consumed: end })
                },
            },
            Strategy::Fixed { len } => if *len == 0 {
                None
            } else if buf.len() >= *len {
                Some(Step::Frame { len: *len, consumed: *len })
            } else {
                Some(Step::Wait)
            },
            Strategy::LengthPrefixed {
                header_size,
                length_offset,
                length_size,
                endian,
                includes,
                trailer_size,
            } => {
                let needed = match length_offset.checked_add(*length_size) {
                    None => return None,
                    Some(needed) => needed,
                };
                if buf.len() < needed {
                    return Some(Step::Wait);
                }
                if *endian == Endian::Little && *length_size > 8 {
                    return None;
                }
                let field = read_uint(&buf[*length_offset..needed], *endian) as usize;
                let total = match includes {
                    LengthIncludes::Payload => match header_size.checked_add(field) {
                        None => return None,
                        Some(front) => match front.checked_add(*trailer_size) {
                            None => return None,
                            Some(total) => total,
                        },
                    },
                    LengthIncludes::Frame => field,
                };
                if total == 0 || total < needed {
                    Some(Step::Flush)
                } else if buf.len() < total {
                    Some(Step::Wait)
                } else {
                    Some(Step::Frame { len: total, consumed: total })
                }
            },
            Strategy::IdleTimeout => Some(Step::Wait),
        }
    }

    /// Takes the complete frames off the front of `buf`.
    fn drain(&self, buf: &mut Vec<u8>, out: &mut Vec<Vec<u8>>)
        requires
            self@.strategy.fits(old(buf)@),
        ensures
            frames_of(final(out)@) == frames_of(old(out)@) + self@.strategy.drained(old(buf)@).0,
            final(buf)@ == self@.strategy.drained(old(buf)@).1,
    {
        let ghost strategy = self@.strategy;
        let ghost all = strategy.drained(buf@);
        loop
            invariant_except_break
                strategy == self@.strategy,
                strategy.fits(buf@),
                frames_of(old(out)@) + all.0 == frames_of(out@) + strategy.drained(buf@).0,
                all.1 == strategy.drained(buf@).1,
            ensures
                frames_of(out@) == frames_of(old(out)@) + all.0,
                buf@ == all.1,
            decreases buf.len(),
        {
            proof {
                lemma_cut_bounds(strategy, buf@);
            }
            match self.next_step(buf.as_slice()) {
                Some(Step::Frame { len, consumed }) => {
                    let ghost before = buf@;
                    let ghost emitted = frames_of(out@);
                    let mut front = buf.split_off(consumed);
                    std::mem::swap(buf, &mut front);
                    front.truncate(len);
                    assert(front@ =~= before.take(len as int));
                    assert(buf@ =~= before.skip(consumed as int));
                    out.push(front);
                    assert(frames_of(out@) =~= emitted.push(before.take(len as int)));
                    assert(frames_of(out@) + strategy.drained(buf@).0 =~= emitted
                        + strategy.drained(before).0);
                },
                Some(Step::Flush) => {
                    let ghost before = buf@;
                    let ghost emitted = frames_of(out@);
                    let mut front: Vec<u8> = Vec::new();
                    std::mem::swap(buf, &mut front);
                    out.push(front);
                    assert(frames_of(out@) =~= emitted + seq![before]);
                    break;
                },
                _ => {
                    assert(frames_of(out@) + strategy.drained(buf@).0 =~= frames_of(out@));
                    break;
                },
            }
        }
    }

    /// Whether `push` can be called with these bytes: no size on the way
    /// exceeds what a size can hold.
    pub fn accepts(&self, buf: &[u8], chunk: &[u8]) -> (r: bool)
        ensures
            r == self@.strategy.fits(buf@ + chunk@),
    {
        let mut all: Vec<u8> = Vec::new();
        all.extend_from_slice(buf);
        all.extend_from_slice(chunk);
        assert(all@ =~= buf@ + chunk@);
        let ghost strategy = self@.strategy;
        let mut pos: usize = 0;
        assert(all@.skip(0) =~= all@);
        loop
            invariant
                strategy == self@.strategy,
                pos <= all@.len(),
                all@ == buf@ + chunk@,
                strategy.fits(all@) == strategy.fits(all@.skip(pos as int)),
            decreases all.len() - pos,
        {
            let rest = &all.as_slice()[pos..all.len()];
            assert(rest@ =~= all@.skip(pos as int));
            match self.next_step(rest) {
                None => {
                    return false;
                },
                Some(Step::Frame { consumed, .. }) => {
                    proof {
                        lemma_cut_bounds(strategy, rest@);
                    }
                    assert(rest@.skip(consumed as int) =~= all@.skip(pos + consumed));
                    pos = pos + consumed;
                },
                _ => {
                    return true;
                },
            }
        }
    }

    /// Feeds a freshly read chunk and appends the frames that it completes.
    pub fn push(&self, buf: &mut Vec<u8>, chunk: &[u8], out: &mut Vec<Vec<u8>>)
        requires
            self@.strategy.fits(old(buf)@ + chunk@),
        ensures
            frames_of(final(out)@) == frames_of(old(out)@) + self@.pushed(old(buf)@, chunk@).0,
            final(buf)@ == self@.pushed(old(buf)@, chunk@).1,
    {
        buf.extend_from_slice(chunk);
        assert(buf@ =~= old(buf)@ + chunk@);
        self.drain(buf, out);
        if buf.len() > self.max_buffer {
            let ghost emitted = frames_of(out@);
            let ghost rest = buf@;
            let mut front: Vec<u8> = Vec::new();
            std::mem::swap(buf, &mut front);
            out.push(front);
            assert(frames_of(out@) =~= emitted.push(rest));
        }
        assert(frames_of(out@) =~= frames_of(old(out)@) + self@.pushed(old(buf)@, chunk@).0);
    }

    /// Called after a quiet gap: idle-timeout framing flushes the buffer as one
    /// frame, the other strategies do nothing.
    pub fn on_idle(&self, buf: &mut Vec<u8>, out: &mut Vec<Vec<u8>>)
        ensures
            frames_of(final(out)@) == frames_of(old(out)@) + self@.idled(old(buf)@).0,
            final(buf)@ == self@.idled(old(buf)@).1,
    {
        let idle_driven = match self.strategy {
            Strategy::IdleTimeout => true,
            _ => false,
        };
        if idle_driven && buf.len() > 0 {
            let ghost emitted = frames_of(out@);
            let ghost rest = buf@;
            let mut front: Vec<u8> = Vec::new();
            std::mem::swap(buf, &mut front);
            out.push(front);
            assert(frames_of(out@) =~= emitted + seq![rest]);
        } else {
            assert(frames_of(out@) =~= frames_of(out@) + Seq::<Seq<u8>>::empty());
        }
    }
}

// ---------------------------------------------------------------------------
// Laws
// ---------------------------------------------------------------------------

/// The bytes of a list of frames, one frame after the other.
pub open spec fn joined(frames: Seq<Seq<u8>>) -> Seq<u8>
    decreases frames.len(),
{
    if frames.len() == 0 {
        seq![]
    } else {
        frames[0] + joined(frames.skip(1))
    }
}

impl StrategyView {
    /// What is taken off the wire behind a frame without being part of it.
    pub open spec fn dropped(self) -> Seq<u8> {
        match self {
            StrategyView::Delimiter { delim, keep: false } => delim,
            _ => seq![],
        }
    }

    /// Frames with what was dropped behind each of them.
    pub open spec fn restored(self, frames: Seq<Seq<u8>>) -> Seq<Seq<u8>> {
        frames.map_values(|f: Seq<u8>| f + self.dropped())
    }

    /// Whether no length field in `buf` declares a length that makes no sense.
    pub open spec fn sound(self, buf: Seq<u8>) -> bool
        decreases buf.len(),
    {
        match self.cut(buf) {
            Cut::Flush => false,
            Cut::Frame { consumed, .. } if 0 < consumed <= buf.len() => self.sound(
                buf.skip(consumed as int),
            ),
            _ => true,
        }
    }
}

/// Draining loses no byte: the frames, each followed by the delimiter where
/// that is stripped, and then the remainder, are the bytes that were buffered.
pub proof fn law_drain_keeps_every_byte(strategy: StrategyView, buf: Seq<u8>)
    requires
        strategy.fits(buf),
    ensures
        joined(strategy.restored(strategy.drained(buf).0)) + strategy.drained(buf).1 == buf,
    decreases buf.len(),
{
    lemma_cut_bounds(strategy, buf);
    match strategy.cut(buf) {
        Cut::Wait => {
            assert(joined(strategy.restored(seq![])) + buf =~= buf);
        },
        Cut::Flush => {
            let frames = strategy.restored(seq![buf]);
            assert(frames.skip(1) =~= seq![]);
            assert(joined(frames.skip(1)) =~= seq![]);
            assert(frames[0] =~= buf);
            assert(joined(frames) =~= buf);
            assert(joined(frames) + Seq::<u8>::empty() =~= buf);
        },
        Cut::Frame { len, consumed } => {
            let tail = buf.skip(consumed as int);
            law_drain_keeps_every_byte(strategy, tail);
            let rest = strategy.drained(tail).1;
            let frames = strategy.restored(strategy.drained(buf).0);
            let later = strategy.restored(strategy.drained(tail).0);
            assert(frames.skip(1) =~= later);
            if let StrategyView::Delimiter { delim, keep } = strategy {
                let pos = find(buf, delim)->0;
                assert(first_at(buf, delim, pos));
                if !keep {
                    assert(buf.take(len as int) + delim =~= buf.take(consumed as int));
                }
            }
            assert(frames[0] =~= buf.take(consumed as int));
            assert(joined(frames) + rest =~= buf.take(consumed as int) + (joined(later) + rest));
            assert(buf.take(consumed as int) + tail =~= buf);
        },
    }
}

proof fn lemma_joined_push(frames: Seq<Seq<u8>>, last: Seq<u8>)
    ensures
        joined(frames.push(last)) == joined(frames) + last,
    decreases frames.len(),
{
    if frames.len() == 0 {
        assert(frames.push(last).skip(1) =~= seq![]);
        assert(joined(frames.push(last).skip(1)) =~= seq![]);
        assert(joined(frames.push(last)) =~= last);
        assert(joined(frames) + last =~= last);
    } else {
        lemma_joined_push(frames.skip(1), last);
        assert(frames.push(last).skip(1) =~= frames.skip(1).push(last));
        assert(joined(frames.push(last)) =~= joined(frames) + last);
    }
}

/// Feeding a chunk loses no byte, as long as delimiters are part of the frames.
pub proof fn law_push_keeps_every_byte(framing: FramingView, buf: Seq<u8>, chunk: Seq<u8>)
    requires
        framing.strategy.fits(buf + chunk),
        framing.strategy.dropped().len() == 0,
    ensures
        ({
            let (frames, rest) = framing.pushed(buf, chunk);
            joined(frames) + rest == buf + chunk
        }),
{
    law_drain_keeps_every_byte(framing.strategy, buf + chunk);
    let (frames, rest) = framing.strategy.drained(buf + chunk);
    assert(framing.strategy.dropped() =~= seq![]);
    assert forall|i: int| 0 <= i < frames.len() implies #[trigger] frames[i]
        == framing.strategy.restored(frames)[i] by {
        assert(frames[i] + framing.strategy.dropped() =~= frames[i]);
    }
    assert(framing.strategy.restored(frames) =~= frames);
    if rest.len() > framing.max_buffer {
        lemma_joined_push(frames, rest);
        assert(joined(frames.push(rest)) + Seq::<u8>::empty() =~= joined(frames) + rest);
    }
}

/// What stays buffered after a chunk is never longer than the backstop allows.
pub proof fn law_buffer_is_bounded(framing: FramingView, buf: Seq<u8>, chunk: Seq<u8>)
    ensures
        framing.pushed(buf, chunk).1.len() <= framing.max_buffer,
{
}

proof fn lemma_find_in_longer(hay: Seq<u8>, more: Seq<u8>, needle: Seq<u8>)
    requires
        find(hay, needle) is Some,
    ensures
        find(hay + more, needle) == find(hay, needle),
{
    let pos = find(hay, needle)->0;
    assert(first_at(hay, needle, pos));
    let all = hay + more;
    assert(all.subrange(pos, pos + needle.len()) =~= hay.subrange(pos, pos + needle.len()));
    assert forall|j: int| 0 <= j < pos implies !#[trigger] occurs_at(all, needle, j) by {
        assert(!occurs_at(hay, needle, j));
        assert(all.subrange(j, j + needle.len()) =~= hay.subrange(j, j + needle.len()));
    }
    lemma_find(all, needle, pos);
}

proof fn lemma_cut_of_longer(strategy: StrategyView, buf: Seq<u8>, more: Seq<u8>)
    requires
        strategy.cut(buf) is Frame,
    ensures
        strategy.cut(buf + more) == strategy.cut(buf),
{
    match strategy {
        StrategyView::Delimiter { delim, .. } => {
            lemma_find_in_longer(buf, more, delim);
        },
        StrategyView::LengthPrefixed { length_offset, length_size, .. } => {
            let from = length_offset as int;
            let to = (length_offset + length_size) as int;
            assert((buf + more).subrange(from, to) =~= buf.subrange(from, to));
        },
        _ => {},
    }
}

/// Where the chunk boundaries fall does not matter: draining `first`, and then
/// what remains of it together with `second`, gives the same frames and the
/// same remainder as draining both at once.
pub proof fn law_chunking_does_not_matter(
    strategy: StrategyView,
    first: Seq<u8>,
    second: Seq<u8>,
)
    requires
        strategy.fits(first),
        strategy.sound(first),
    ensures
        ({
            let (early, rest) = strategy.drained(first);
            let (late, left) = strategy.drained(rest + second);
            strategy.drained(first + second) == (early + late, left)
        }),
    decreases first.len(),
{
    lemma_cut_bounds(strategy, first);
    let (early, rest) = strategy.drained(first);
    let (late, left) = strategy.drained(rest + second);
    match strategy.cut(first) {
        Cut::Frame { len, consumed } => {
            lemma_cut_of_longer(strategy, first, second);
            let tail = first.skip(consumed as int);
            law_chunking_does_not_matter(strategy, tail, second);
            assert((first + second).skip(consumed as int) =~= tail + second);
            assert((first + second).take(len as int) =~= first.take(len as int));
            let (tail_early, _) = strategy.drained(tail);
            assert(seq![first.take(len as int)] + (tail_early + late) =~= early + late);
        },
        _ => {
            assert(early + late =~= late);
        },
    }
}

/// Where the chunk boundaries fall does not matter to what is fed in: two chunks
/// one after the other complete the same frames, and leave the same bytes
/// buffered, as both at once. That holds as long as what the first of them leaves
/// is not so long that it is flushed.
pub proof fn law_pushing_in_chunks_does_not_matter(
    framing: FramingView,
    buf: Seq<u8>,
    first: Seq<u8>,
    second: Seq<u8>,
)
    requires
        framing.strategy.fits(buf + first),
        framing.strategy.sound(buf + first),
        framing.strategy.drained(buf + first).1.len() <= framing.max_buffer,
    ensures
        ({
            let (early, rest) = framing.pushed(buf, first);
            let (late, left) = framing.pushed(rest, second);
            framing.pushed(buf, first + second) == (early + late, left)
        }),
{
    law_chunking_does_not_matter(framing.strategy, buf + first, second);
    assert(buf + (first + second) =~= (buf + first) + second);
    let (early, rest) = framing.strategy.drained(buf + first);
    let (late, left) = framing.strategy.drained(rest + second);
    assert((early + late).push(left) =~= early + late.push(left));
}

/// Under fixed framing every frame has exactly the configured length, and less
/// than that stays buffered.
pub proof fn law_fixed_frames(length: usize, buf: Seq<u8>, chunk: Seq<u8>)
    requires
        length > 0,
    ensures
        ({
            let framing = configured_framing(Some(&FramingConfig::Fixed { length }));
            let (frames, rest) = framing.pushed(buf, chunk);
            &&& forall|i: int| 0 <= i < frames.len() ==> (#[trigger] frames[i]).len() == length
            &&& rest.len() < length
        }),
{
    lemma_fixed_drain(length as nat, buf + chunk);
}

proof fn lemma_fixed_drain(len: nat, buf: Seq<u8>)
    requires
        len > 0,
    ensures
        ({
            let (frames, rest) = (StrategyView::Fixed { len }).drained(buf);
            &&& forall|i: int| 0 <= i < frames.len() ==> (#[trigger] frames[i]).len() == len
            &&& rest.len() < len
        }),
    decreases buf.len(),
{
    if buf.len() >= len {
        lemma_fixed_drain(len, buf.skip(len as int));
    }
}

/// Up to the end of its first delimiter a buffer holds no other.
proof fn lemma_first_delimiter(delim: Seq<u8>, buf: Seq<u8>, pos: int)
    requires
        delim.len() > 0,
        find(buf, delim) == Some(pos),
    ensures
        0 <= pos,
        pos + delim.len() <= buf.len(),
        buf.take(pos + delim.len()) == buf.take(pos) + delim,
        find(buf.take(pos + delim.len()), delim) == Some(pos),
{
    assert(first_at(buf, delim, pos));
    let consumed = pos + delim.len();
    let whole = buf.take(consumed);
    assert(whole =~= buf.take(pos) + delim);
    assert forall|j: int| 0 <= j < pos implies !#[trigger] occurs_at(whole, delim, j) by {
        assert(!occurs_at(buf, delim, j));
        if j + delim.len() <= whole.len() {
            assert(whole.subrange(j, j + delim.len()) =~= buf.subrange(j, j + delim.len()));
        }
    }
    assert(whole.subrange(pos, consumed) =~= buf.subrange(pos, consumed));
    lemma_find(whole, delim, pos);
}

/// Whether a frame is what stands before its first delimiter, with the delimiter
/// where that is kept.
pub open spec fn is_delimited(frame: Seq<u8>, delim: Seq<u8>, keep: bool) -> bool {
    if keep {
        find(frame, delim) == Some(frame.len() - delim.len())
    } else {
        find(frame + delim, delim) == Some(frame.len() as int)
    }
}

/// Under delimiter framing the remainder holds no delimiter. A frame that keeps
/// its delimiter ends with it and holds no other; one that does not keep it is
/// what stood before the first delimiter.
pub proof fn law_delimiter_frames(delim: Seq<u8>, keep: bool, buf: Seq<u8>)
    requires
        delim.len() > 0,
    ensures
        ({
            let (frames, rest) = (StrategyView::Delimiter { delim, keep }).drained(buf);
            &&& find(rest, delim) is None
            &&& forall|i: int|
                0 <= i < frames.len() ==> is_delimited(#[trigger] frames[i], delim, keep)
        }),
    decreases buf.len(),
{
    let strategy = StrategyView::Delimiter { delim, keep };
    if let Some(pos) = find(buf, delim) {
        lemma_first_delimiter(delim, buf, pos);
        let consumed = pos + delim.len();
        law_delimiter_frames(delim, keep, buf.skip(consumed));
        let frame = buf.take(if keep { consumed } else { pos });
        let frames = strategy.drained(buf).0;
        let later = strategy.drained(buf.skip(consumed)).0;
        assert(frames == seq![frame] + later);
        assert(is_delimited(frame, delim, keep));
        assert forall|i: int| 0 <= i < frames.len() implies is_delimited(
            #[trigger] frames[i],
            delim,
            keep,
        ) by {
            if i > 0 {
                assert(frames[i] == later[i - 1]);
            }
        }
    }
}

/// Under length-prefixed framing every frame is as long as it says it is. What
/// remains is too short for a length field, or shorter than it says it is.
pub proof fn law_length_prefixed_frames(strategy: StrategyView, buf: Seq<u8>)
    requires
        strategy is LengthPrefixed,
        strategy.fits(buf),
        strategy.sound(buf),
    ensures
        forall|i: int|
            0 <= i < strategy.drained(buf).0.len() ==> (#[trigger] strategy.drained(
                buf,
            ).0[i]).len() == strategy.declared(strategy.drained(buf).0[i]),
        ({
            let rest = strategy.drained(buf).1;
            rest.len() < strategy->length_offset + strategy->length_size || rest.len()
                < strategy.declared(rest)
        }),
    decreases buf.len(),
{
    lemma_cut_bounds(strategy, buf);
    if let Cut::Frame { len, consumed } = strategy.cut(buf) {
        let tail = buf.skip(consumed as int);
        law_length_prefixed_frames(strategy, tail);
        let frame = buf.take(len as int);
        let from = strategy->length_offset as int;
        let to = from + strategy->length_size;
        assert(frame.subrange(from, to) =~= buf.subrange(from, to));
        let frames = strategy.drained(buf).0;
        let later = strategy.drained(tail).0;
        assert(frames =~= seq![frame] + later);
        assert forall|i: int| 0 <= i < frames.len() implies (#[trigger] frames[i]).len()
            == strategy.declared(frames[i]) by {
            if i > 0 {
                assert(frames[i] == later[i - 1]);
            }
        }
    }
}

/// A configured framing waits for a quiet gap exactly when a quiet gap makes it
/// emit what has accumulated.
pub proof fn law_silence_is_awaited_where_it_counts(cfg: Option<&FramingConfig>, buf: Seq<u8>)
    requires
        buf.len() > 0,
    ensures
        configured_framing(cfg).wf(),
        configured_framing(cfg).quiet_ms is Some <==> configured_framing(cfg).idled(buf).0.len() > 0,
{
}

/// Idle-timeout framing emits nothing while bytes arrive, all that arrived as
/// one frame on silence, and nothing on further silence.
pub proof fn law_idle_frames(quiet_ms: u64, buf: Seq<u8>, chunk: Seq<u8>)
    requires
        0 < (buf + chunk).len() <= DEFAULT_MAX_BUFFER,
    ensures
        ({
            let framing = configured_framing(Some(&FramingConfig::IdleTimeout { quiet_ms }));
            let (frames, held) = framing.pushed(buf, chunk);
            let (flushed, rest) = framing.idled(held);
            &&& frames.len() == 0
            &&& flushed == seq![buf + chunk]
            &&& rest.len() == 0
            &&& framing.idled(rest) == (Seq::<Seq<u8>>::empty(), rest)
        }),
{
}

proof fn lemma_be_value_bound(bytes: Seq<u8>)
    requires
        bytes.len() <= 4,
    ensures
        bytes.len() <= 1 ==> be_value(bytes) <= 0xff,
        bytes.len() <= 2 ==> be_value(bytes) <= 0xffff,
        bytes.len() <= 3 ==> be_value(bytes) <= 0xff_ffff,
        be_value(bytes) <= 0xffff_ffff,
    decreases bytes.len(),
{
    if bytes.len() > 0 {
        lemma_be_value_bound(bytes.drop_last());
        assert(bytes.drop_last().len() == 0 ==> be_value(bytes.drop_last()) == 0);
    }
}

/// The largest number that a length field of the given size can declare.
pub open spec fn largest_length(length_size: usize) -> nat {
    if length_size == 1 {
        0xff
    } else if length_size == 2 {
        0xffff
    } else {
        0xffff_ffff
    }
}

/// A framing that passed validation takes every chunk, as long as the sizes that
/// it configures fit, and leave room for the largest payload that its length
/// field can declare where that counts the payload.
pub proof fn law_checked_framing_takes_every_chunk(cfg: &FramingConfig, buf: Seq<u8>)
    requires
        cfg.problem() is None,
        cfg matches FramingConfig::LengthPrefixed {
            header_size,
            length_offset,
            length_size,
            length_includes,
            trailer_size,
            ..
        } ==> *length_offset + *length_size <= usize::MAX && (*length_includes
            == LengthIncludes::Payload ==> *header_size + largest_length(*length_size)
            + *trailer_size <= usize::MAX),
    ensures
        configured_framing(Some(cfg)).strategy.fits(buf),
        default_framing().strategy.fits(buf),
    decreases buf.len(),
{
    let strategy = configured_framing(Some(cfg)).strategy;
    let plain = default_framing().strategy;
    if let FramingConfig::LengthPrefixed { length_offset, length_size, length_endian, .. } = cfg {
        let from = *length_offset as int;
        let to = from + *length_size;
        if buf.len() >= to {
            let field = buf.subrange(from, to);
            lemma_be_value_bound(field);
            lemma_be_value_bound(field.reverse());
        }
    }
    assert(strategy.computable(buf));
    if let Cut::Frame { consumed, .. } = strategy.cut(buf) {
        if 0 < consumed <= buf.len() {
            law_checked_framing_takes_every_chunk(cfg, buf.skip(consumed as int));
        }
    }
    if let Cut::Frame { consumed, .. } = plain.cut(buf) {
        if 0 < consumed <= buf.len() {
            law_checked_framing_takes_every_chunk(cfg, buf.skip(consumed as int));
        }
    }
}

/// A number of which one more byte is read: before the others in little-endian
/// order it is worth least, after the others in big-endian order too, and the
/// other bytes are worth 256 times what they were.
pub proof fn law_bytes_denote_numbers(bytes: Seq<u8>, b: u8)
    requires
        bytes.len() <= 3,
    ensures
        uint_value(seq![], Endian::Big) == 0,
        uint_value(seq![], Endian::Little) == 0,
        uint_value(bytes.push(b), Endian::Big) == 256 * uint_value(bytes, Endian::Big) + b,
        uint_value(seq![b] + bytes, Endian::Little) == 256 * uint_value(bytes, Endian::Little) + b,
{
    assert(Seq::<u8>::empty().reverse() =~= seq![]);
    lemma_be_value_bound(bytes);
    lemma_be_value_bound(bytes.reverse());
    lemma_be_value_bound(bytes.push(b));
    assert(bytes.push(b).drop_last() =~= bytes);
    let back = (seq![b] + bytes).reverse();
    assert(back =~= bytes.reverse().push(b));
    assert(back.drop_last() =~= bytes.reverse());
}

/// A chunk is added to the bytes that are buffered, and the complete frames are
/// taken off the front. Only when more than 4096 bytes remain, or more than a
/// longer fixed length, does the remainder become a frame too.
pub proof fn law_only_a_full_buffer_is_flushed(
    cfg: Option<&FramingConfig>,
    buf: Seq<u8>,
    chunk: Seq<u8>,
)
    ensures
        ({
            let framing = configured_framing(cfg);
            let (frames, rest) = framing.strategy.drained(buf + chunk);
            let limit: int = if let Some(FramingConfig::Fixed { length }) = cfg {
                if *length > 4096 {
                    *length as int
                } else {
                    4096
                }
            } else {
                4096
            };
            &&& rest.len() <= limit ==> framing.pushed(buf, chunk) == (frames, rest)
            &&& rest.len() > limit ==> framing.pushed(buf, chunk) == (
                frames.push(rest),
                Seq::<u8>::empty(),
            )
        }),
{
}

/// Silence ends a frame under idle-timeout framing, after the configured time,
/// and under no other.
pub proof fn law_silence_ends_idle_frames_only(cfg: Option<&FramingConfig>, buf: Seq<u8>)
    requires
        buf.len() > 0,
    ensures
        match cfg {
            Some(FramingConfig::IdleTimeout { quiet_ms }) => {
                &&& configured_framing(cfg).quiet_ms == Some(*quiet_ms)
                &&& configured_framing(cfg).idled(buf) == (seq![buf], Seq::<u8>::empty())
                &&& configured_framing(cfg).strategy.drained(buf) == (
                    Seq::<Seq<u8>>::empty(),
                    buf,
                )
            },
            _ => {
                &&& configured_framing(cfg).quiet_ms is None
                &&& configured_framing(cfg).idled(buf) == (Seq::<Seq<u8>>::empty(), buf)
            },
        },
{
}

/// Under fixed framing a stream is cut into pieces of the configured length, in
/// order and without gaps, until less than one piece remains.
pub proof fn law_fixed_pieces(length: usize, buf: Seq<u8>)
    requires
        length > 0,
    ensures
        ({
            let (frames, rest) = configured_framing(
                Some(&FramingConfig::Fixed { length }),
            ).strategy.drained(buf);
            &&& frames.len() * length + rest.len() == buf.len()
            &&& rest.len() < length
            &&& forall|i: int|
                0 <= i < frames.len() ==> #[trigger] frames[i] == buf.subrange(
                    i * length,
                    i * length + length,
                )
            &&& rest == buf.skip(frames.len() * length)
        }),
    decreases buf.len(),
{
    let strategy = configured_framing(Some(&FramingConfig::Fixed { length })).strategy;
    let (frames, rest) = strategy.drained(buf);
    if buf.len() >= length {
        let tail = buf.skip(length as int);
        law_fixed_pieces(length, tail);
        let (later, _) = strategy.drained(tail);
        assert(frames == seq![buf.take(length as int)] + later);
        let n = later.len() as int;
        assert((n + 1) * length == n * length + length) by (nonlinear_arith);
        assert(frames.len() * length == n * length + length);
        assert forall|i: int| 0 <= i < frames.len() implies #[trigger] frames[i] == buf.subrange(
            i * length,
            i * length + length,
        ) by {
            if i > 0 {
                assert(frames[i] == later[i - 1]);
                assert(i * length == (i - 1) * length + length) by (nonlinear_arith);
                assert(0 <= (i - 1) * length) by (nonlinear_arith)
                    requires
                        i > 0,
                ;
                assert((i - 1) * length + length <= n * length) by (nonlinear_arith)
                    requires
                        i <= n,
                ;
                assert(tail.subrange((i - 1) * length, (i - 1) * length + length) =~= buf.subrange(
                    i * length,
                    i * length + length,
                ));
            } else {
                assert(0 * length == 0);
                assert(buf.take(length as int) =~= buf.subrange(0, length as int));
            }
        }
        assert(0 <= n * length) by (nonlinear_arith)
            requires
                n >= 0,
        ;
        assert(tail.skip(n * length) =~= buf.skip(n * length + length));
    } else {
        assert(frames =~= seq![]);
        assert(buf.skip(0) =~= buf);
    }
}

/// Under delimiter framing, when the delimiter stands at `pos` and nowhere
/// before, the first frame is what stands before it, with the delimiter where
/// that is to be kept, and the rest of the stream is cut in the same way. Where
/// the delimiter does not stand anywhere, nothing is emitted.
pub proof fn law_delimiter_cuts_at_its_first_place(
    delimiter: Bytes,
    include_delimiter: bool,
    buf: Seq<u8>,
    pos: int,
)
    requires
        delimiter@.len() > 0,
        0 <= pos,
        pos + delimiter@.len() <= buf.len() ==> buf.subrange(pos, pos + delimiter@.len())
            == delimiter@,
        forall|j: int|
            0 <= j < pos && j + delimiter@.len() <= buf.len() ==> #[trigger] buf.subrange(
                j,
                j + delimiter@.len(),
            ) != delimiter@,
    ensures
        ({
            let strategy = configured_framing(
                Some(&FramingConfig::Delimiter { delimiter, include_delimiter }),
            ).strategy;
            let end = pos + delimiter@.len();
            if end <= buf.len() {
                let (later, rest) = strategy.drained(buf.skip(end));
                strategy.drained(buf) == (
                    seq![
                        buf.take(
                            if include_delimiter {
                                end
                            } else {
                                pos
                            },
                        ),
                    ] + later,
                    rest,
                )
            } else {
                strategy.drained(buf) == (Seq::<Seq<u8>>::empty(), buf)
            }
        }),
{
    let delim = delimiter@;
    let strategy = configured_framing(
        Some(&FramingConfig::Delimiter { delimiter, include_delimiter }),
    ).strategy;
    assert forall|j: int| 0 <= j < pos implies !#[trigger] occurs_at(buf, delim, j) by {
        if j + delim.len() <= buf.len() {
            assert(buf.subrange(j, j + delim.len()) != delim);
        }
    }
    if pos + delim.len() <= buf.len() {
        assert(first_at(buf, delim, pos));
        lemma_find(buf, delim, pos);
    } else {
        if find(buf, delim) is Some {
            let k = find(buf, delim)->0;
            assert(first_at(buf, delim, k));
            assert(k < pos);
        }
    }
}

/// A port without framing is cut after every newline: the frames and the
/// remainder are the stream, each frame ends with its only newline, and the
/// remainder has none.
pub proof fn law_default_framing_cuts_lines(buf: Seq<u8>)
    ensures
        configured_framing(None) == default_framing(),
        ({
            let (frames, rest) = default_framing().strategy.drained(buf);
            &&& joined(frames) + rest == buf
            &&& forall|i: int, j: int|
                0 <= i < frames.len() && 0 <= j < frames[i].len() ==> (#[trigger] frames[i][j] == 10
                    <==> j == frames[i].len() - 1)
            &&& forall|i: int| 0 <= i < frames.len() ==> (#[trigger] frames[i]).len() > 0
            &&& forall|j: int| 0 <= j < rest.len() ==> #[trigger] rest[j] != 10
        }),
    decreases buf.len(),
{
    let newline = seq![10u8];
    let strategy = default_framing().strategy;
    let (frames, rest) = strategy.drained(buf);
    if let Some(pos) = find(buf, newline) {
        assert(first_at(buf, newline, pos));
        assert(buf.subrange(pos, pos + 1)[0] == 10);
        assert forall|j: int| 0 <= j < pos implies #[trigger] buf[j] != 10 by {
            assert(!occurs_at(buf, newline, j));
            if buf[j] == 10 {
                assert(buf.subrange(j, j + 1) =~= newline);
            }
        }
        let line = buf.take(pos + 1);
        let tail = buf.skip(pos + 1);
        law_default_framing_cuts_lines(tail);
        let later = strategy.drained(tail).0;
        assert(frames == seq![line] + later);
        assert(frames.skip(1) =~= later);
        assert(joined(frames) + rest =~= line + (joined(later) + rest));
        assert(line + tail =~= buf);
        assert forall|i: int, j: int| 0 <= i < frames.len() && 0 <= j < frames[i].len() implies (
        #[trigger] frames[i][j] == 10 <==> j == frames[i].len() - 1) by {
            if i > 0 {
                assert(frames[i] == later[i - 1]);
                assert(later[i - 1][j] == frames[i][j]);
            } else {
                assert(frames[i] == line);
                assert(line[j] == buf[j]);
            }
        }
        assert forall|i: int| 0 <= i < frames.len() implies (#[trigger] frames[i]).len() > 0 by {
            if i > 0 {
                assert(frames[i] == later[i - 1]);
            }
        }
    } else {
        assert(joined(frames) + rest =~= buf);
        assert forall|j: int| 0 <= j < rest.len() implies #[trigger] rest[j] != 10 by {
            if buf[j] == 10 {
                lemma_some_newline(buf, j);
            }
        }
    }
}

proof fn lemma_some_newline(buf: Seq<u8>, j: int)
    requires
        0 <= j < buf.len(),
        buf[j] == 10,
    ensures
        find(buf, seq![10u8]) is Some,
    decreases j,
{
    let newline = seq![10u8];
    assert(buf.subrange(j, j + 1) =~= newline);
    if exists|k: int| 0 <= k < j && #[trigger] occurs_at(buf, newline, k) {
        let k = choose|k: int| 0 <= k < j && #[trigger] occurs_at(buf, newline, k);
        assert(buf.subrange(k, k + 1)[0] == 10);
        lemma_some_newline(buf, k);
    } else {
        assert(first_at(buf, newline, j));
    }
}

/// Draining under length-prefixed framing, malformed lengths too.
proof fn lemma_prefixed_drain(strategy: StrategyView, buf: Seq<u8>)
    requires
        strategy is LengthPrefixed,
        strategy->length_size > 0,
        strategy.fits(buf),
    ensures
        ({
            let needed = strategy->length_offset + strategy->length_size;
            let (frames, rest) = strategy.drained(buf);
            &&& forall|i: int|
                0 <= i < frames.len() ==> (#[trigger] frames[i]).len() >= needed && (
                frames[i].len() == strategy.declared(frames[i]) || (strategy.declared(frames[i])
                    < needed && i == frames.len() - 1 && rest.len() == 0))
            &&& rest.len() < needed || rest.len() < strategy.declared(rest)
        }),
    decreases buf.len(),
{
    lemma_cut_bounds(strategy, buf);
    let needed = (strategy->length_offset + strategy->length_size) as int;
    let (frames, rest) = strategy.drained(buf);
    if let Cut::Frame { len, consumed } = strategy.cut(buf) {
        let tail = buf.skip(consumed as int);
        lemma_prefixed_drain(strategy, tail);
        let frame = buf.take(len as int);
        let from = strategy->length_offset as int;
        assert(frame.subrange(from, needed) =~= buf.subrange(from, needed));
        let later = strategy.drained(tail).0;
        assert(frames == seq![frame] + later);
        assert forall|i: int| 0 <= i < frames.len() implies (#[trigger] frames[i]).len() >= needed
            && (frames[i].len() == strategy.declared(frames[i]) || (strategy.declared(frames[i])
            < needed && i == frames.len() - 1 && rest.len() == 0)) by {
            if i > 0 {
                assert(frames[i] == later[i - 1]);
            }
        }
    }
}

/// What a length field of at most four bytes adds to the declared length.
proof fn lemma_declared(strategy: StrategyView, f: Seq<u8>)
    requires
        strategy is LengthPrefixed,
        strategy->length_size <= 4,
        f.len() >= strategy->length_offset + strategy->length_size,
    ensures
        ({
            let from = strategy->length_offset as int;
            let n = uint_value(
                f.subrange(from, from + strategy->length_size),
                strategy->endian,
            );
            strategy.declared(f) == match strategy->includes {
                LengthIncludes::Payload => strategy->header_size + n + strategy->trailer_size,
                LengthIncludes::Frame => n,
            }
        }),
{
    let from = strategy->length_offset as int;
    let field = f.subrange(from, from + strategy->length_size);
    lemma_be_value_bound(field);
    lemma_be_value_bound(field.reverse());
}

proof fn lemma_prefixed_stream(cfg: &FramingConfig, buf: Seq<u8>)
    requires
        cfg is LengthPrefixed,
        cfg.problem() is None,
        cfg->length_offset + cfg->length_size <= usize::MAX,
        cfg->length_includes == LengthIncludes::Payload ==> cfg->header_size + largest_length(
            cfg->length_size,
        ) + cfg->trailer_size <= usize::MAX,
    ensures
        ({
            let strategy = configured_framing(Some(cfg)).strategy;
            let needed = cfg->length_offset + cfg->length_size;
            let (frames, rest) = strategy.drained(buf);
            &&& joined(frames) + rest == buf
            &&& forall|i: int|
                0 <= i < frames.len() ==> (#[trigger] frames[i]).len() >= needed && (
                frames[i].len() == strategy.declared(frames[i]) || (strategy.declared(frames[i])
                    < needed && i == frames.len() - 1 && rest.len() == 0))
            &&& rest.len() < needed || rest.len() < strategy.declared(rest)
        }),
{
    let strategy = configured_framing(Some(cfg)).strategy;
    law_checked_framing_takes_every_chunk(cfg, buf);
    law_drain_keeps_every_byte(strategy, buf);
    lemma_prefixed_drain(strategy, buf);
    let frames = strategy.drained(buf).0;
    assert forall|i: int| 0 <= i < frames.len() implies #[trigger] frames[i] == strategy.restored(
        frames,
    )[i] by {
        assert(frames[i] + strategy.dropped() =~= frames[i]);
    }
    assert(strategy.restored(frames) =~= frames);
}

/// Where the length field counts the whole frame, the number in the field of a
/// frame is the number of its bytes: `length_size` bytes at `length_offset`, in
/// the configured order. The frames and the remainder are the stream, and the
/// remainder is not complete. Only when a number is too small to cover its own
/// field does everything from there on become one frame.
pub proof fn law_length_field_counts_the_frame(
    header_size: usize,
    length_offset: usize,
    length_size: usize,
    length_endian: Endian,
    trailer_size: usize,
    buf: Seq<u8>,
)
    requires
        length_size == 1 || length_size == 2 || length_size == 4,
        length_offset + length_size <= usize::MAX,
    ensures
        ({
            let cfg = FramingConfig::LengthPrefixed {
                header_size,
                length_offset,
                length_size,
                length_endian,
                length_includes: LengthIncludes::Frame,
                trailer_size,
            };
            let from = length_offset as int;
            let to = length_offset + length_size;
            let (frames, rest) = configured_framing(Some(&cfg)).strategy.drained(buf);
            &&& joined(frames) + rest == buf
            &&& forall|i: int|
                0 <= i < frames.len() ==> (#[trigger] frames[i]).len() >= to && (uint_value(
                    frames[i].subrange(from, to),
                    length_endian,
                ) == frames[i].len() || (uint_value(frames[i].subrange(from, to), length_endian)
                    < to && i == frames.len() - 1 && rest.len() == 0))
            &&& rest.len() < to || rest.len() < uint_value(rest.subrange(from, to), length_endian)
        }),
{
    let cfg = FramingConfig::LengthPrefixed {
        header_size,
        length_offset,
        length_size,
        length_endian,
        length_includes: LengthIncludes::Frame,
        trailer_size,
    };
    lemma_prefixed_stream(&cfg, buf);
    let strategy = configured_framing(Some(&cfg)).strategy;
    let (frames, rest) = strategy.drained(buf);
    assert forall|i: int| 0 <= i < frames.len() implies strategy.declared(#[trigger] frames[i])
        == uint_value(
        frames[i].subrange(length_offset as int, length_offset + length_size),
        length_endian,
    ) by {
        lemma_declared(strategy, frames[i]);
    }
    if rest.len() >= length_offset + length_size {
        lemma_declared(strategy, rest);
    }
}

/// Where the length field counts the payload, a frame has the bytes of the header,
/// as many as the number in its field, and those of the trailer. The frames and
/// the remainder are the stream, and the remainder is not complete. Only when
/// that is too small to cover the field itself does everything from there on
/// become one frame.
pub proof fn law_length_field_counts_the_payload(
    header_size: usize,
    length_offset: usize,
    length_size: usize,
    length_endian: Endian,
    trailer_size: usize,
    buf: Seq<u8>,
)
    requires
        length_size == 1 || length_size == 2 || length_size == 4,
        length_offset + length_size <= usize::MAX,
        header_size + largest_length(length_size) + trailer_size <= usize::MAX,
    ensures
        ({
            let cfg = FramingConfig::LengthPrefixed {
                header_size,
                length_offset,
                length_size,
                length_endian,
                length_includes: LengthIncludes::Payload,
                trailer_size,
            };
            let from = length_offset as int;
            let to = length_offset + length_size;
            let (frames, rest) = configured_framing(Some(&cfg)).strategy.drained(buf);
            &&& joined(frames) + rest == buf
            &&& forall|i: int|
                0 <= i < frames.len() ==> (#[trigger] frames[i]).len() >= to && (header_size
                    + uint_value(frames[i].subrange(from, to), length_endian) + trailer_size
                    == frames[i].len() || (header_size + uint_value(
                    frames[i].subrange(from, to),
                    length_endian,
                ) + trailer_size < to && i == frames.len() - 1 && rest.len() == 0))
            &&& rest.len() < to || rest.len() < header_size + uint_value(
                rest.subrange(from, to),
                length_endian,
            ) + trailer_size
        }),
{
    let cfg = FramingConfig::LengthPrefixed {
        header_size,
        length_offset,
        length_size,
        length_endian,
        length_includes: LengthIncludes::Payload,
        trailer_size,
    };
    lemma_prefixed_stream(&cfg, buf);
    let strategy = configured_framing(Some(&cfg)).strategy;
    let (frames, rest) = strategy.drained(buf);
    assert forall|i: int| 0 <= i < frames.len() implies strategy.declared(#[trigger] frames[i])
        == header_size + uint_value(
        frames[i].subrange(length_offset as int, length_offset + length_size),
        length_endian,
    ) + trailer_size by {
        lemma_declared(strategy, frames[i]);
    }
    if rest.len() >= length_offset + length_size {
        lemma_declared(strategy, rest);
    }
}

/// A framing cuts by the kind and the parameters that its configuration gives,
/// and keeps no more than 4096 bytes waiting, or one frame where frames of a
/// fixed length are longer.
pub proof fn law_framing_is_as_configured(cfg: &FramingConfig)
    ensures
        ({
            let framing = configured_framing(Some(cfg));
            match *cfg {
                FramingConfig::Delimiter { delimiter, include_delimiter } => {
                    &&& framing.strategy == (StrategyView::Delimiter {
                        delim: delimiter@,
                        keep: include_delimiter,
                    })
                    &&& framing.max_buffer == 4096
                    &&& framing.quiet_ms is None
                },
                FramingConfig::Fixed { length } => {
                    &&& framing.strategy == (StrategyView::Fixed { len: length as nat })
                    &&& framing.max_buffer >= 4096 && framing.max_buffer >= length
                    &&& framing.max_buffer == 4096 || framing.max_buffer == length
                    &&& framing.quiet_ms is None
                },
                FramingConfig::LengthPrefixed {
                    header_size,
                    length_offset,
                    length_size,
                    length_endian,
                    length_includes,
                    trailer_size,
                } => {
                    &&& framing.strategy == (StrategyView::LengthPrefixed {
                        header_size: header_size as nat,
                        length_offset: length_offset as nat,
                        length_size: length_size as nat,
                        endian: length_endian,
                        includes: length_includes,
                        trailer_size: trailer_size as nat,
                    })
                    &&& framing.max_buffer == 4096
                    &&& framing.quiet_ms is None
                },
                FramingConfig::IdleTimeout { quiet_ms } => {
                    &&& framing.strategy is IdleTimeout
                    &&& framing.max_buffer == 4096
                    &&& framing.quiet_ms == Some(quiet_ms)
                },
            }
        }),
{
}

/// The parameters that validation refuses are those with which nothing could be
/// framed: an empty delimiter, frames of no bytes, a length field of other than
/// one, two or four bytes, no silence at all. No other parameters are refused.
pub proof fn law_framing_faults(cfg: &FramingConfig)
    ensures
        cfg.problem() is None <==> (match *cfg {
            FramingConfig::Delimiter { delimiter, .. } => delimiter@.len() > 0,
            FramingConfig::Fixed { length } => length > 0,
            FramingConfig::LengthPrefixed { length_size, .. } => length_size == 1 || length_size
                == 2 || length_size == 4,
            FramingConfig::IdleTimeout { quiet_ms } => quiet_ms > 0,
        }),
{
}

} // verus!
