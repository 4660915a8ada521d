//! IPC message encoding: the command header word, normal parameters and
//! translate parameters (handles, static buffers, buffer mappings), read
//! from and written into a thread's IPC data area as little-endian words.

use vstd::prelude::*;
use crate::le::{le_bytes, le_u32_at, read_word, write_word};
use crate::types::{spec_handle_valid, spec_raw_or_zero, Handle, HandleImpl, CURRENT_PROCESS_HANDLE};

verus! {

/// Size in bytes of a thread's IPC data area.
pub const IPC_REQUEST_SIZE: usize = 0x100;

/// The word at word index `i` of a byte buffer.
pub open spec fn word_at(data: Seq<u8>, i: int) -> u32 {
    le_u32_at(data, 4 * i)
}

/// The command header of an IPC message.
#[derive(Clone, Copy, Debug, PartialEq, Eq, Structural)]
pub struct IPCHeaderCode {
    pub command_id: u16,
    pub normal_parameter_count: u8,
    pub translate_parameter_size: u8,
}

impl IPCHeaderCode {
    /// The header encoded in a message's first word.
    pub open spec fn spec_decode(value: u32) -> IPCHeaderCode {
        IPCHeaderCode {
            command_id: ((value & 0xFFFF0000u32) >> 16u32) as u16,
            normal_parameter_count: ((value & 0xFC0u32) >> 6u32) as u8,
            translate_parameter_size: (value & 0x3Fu32) as u8,
        }
    }

    /// The first word of a message with this header.
    pub open spec fn spec_encode(self) -> u32 {
        ((self.command_id as u32) << 16u32) | ((self.normal_parameter_count as u32) << 6u32)
            | (self.translate_parameter_size as u32)
    }

    /// Decodes a header word.
    pub fn from_word(value: u32) -> (r: IPCHeaderCode)
        ensures
            r == IPCHeaderCode::spec_decode(value),
    {
        IPCHeaderCode {
            command_id: ((value & 0xFFFF0000u32) >> 16u32) as u16,
            normal_parameter_count: ((value & 0xFC0u32) >> 6u32) as u8,
            translate_parameter_size: (value & 0x3Fu32) as u8,
        }
    }

    /// Encodes the header as a message's first word.
    pub fn to_word(&self) -> (r: u32)
        ensures
            r == self.spec_encode(),
    {
        ((self.command_id as u32) << 16u32) | ((self.normal_parameter_count as u32) << 6u32)
            | (self.translate_parameter_size as u32)
    }
}

impl From<u32> for IPCHeaderCode {
    fn from(value: u32) -> (r: IPCHeaderCode) {
        IPCHeaderCode::from_word(value)
    }
}

impl vstd::std_specs::convert::FromSpecImpl<u32> for IPCHeaderCode {
    open spec fn obeys_from_spec() -> bool {
        true
    }

    open spec fn from_spec(v: u32) -> IPCHeaderCode {
        IPCHeaderCode::spec_decode(v)
    }
}

proof fn lemma_header_bits(c: u32, n: u32, t: u32)
    requires
        c < 0x10000,
        n < 64,
        t < 64,
    ensures
        ((((c << 16u32) | (n << 6u32) | t) & 0xFFFF0000u32) >> 16u32) == c,
        ((((c << 16u32) | (n << 6u32) | t) & 0xFC0u32) >> 6u32) == n,
        (((c << 16u32) | (n << 6u32) | t) & 0x3Fu32) == t,
{
    assert(((((c << 16u32) | (n << 6u32) | t) & 0xFFFF0000u32) >> 16u32) == c) by (bit_vector)
        requires
            c < 0x10000,
            n < 64,
            t < 64,
    ;
    assert(((((c << 16u32) | (n << 6u32) | t) & 0xFC0u32) >> 6u32) == n) by (bit_vector)
        requires
            n < 64,
            t < 64,
    ;
    assert((((c << 16u32) | (n << 6u32) | t) & 0x3Fu32) == t) by (bit_vector)
        requires
            t < 64,
    ;
}

/// A header whose two counts fit their six-bit fields is decoded from its
/// encoding unchanged.
pub proof fn law_header_roundtrip(h: IPCHeaderCode)
    requires
        h.normal_parameter_count < 64,
        h.translate_parameter_size < 64,
    ensures
        IPCHeaderCode::spec_decode(h.spec_encode()) == h,
{
    lemma_header_bits(h.command_id as u32, h.normal_parameter_count as u32, h.translate_parameter_size as u32);
}

/// The handles of a handle translate parameter.
#[derive(Debug)]
pub enum IPCHandles {
    Single(Option<Handle>),
    Multiple(Vec<Option<Handle>>),
}

impl IPCHandles {
    pub open spec fn spec_handles(&self) -> Seq<Option<Handle>> {
        match self {
            IPCHandles::Single(h) => seq![*h],
            IPCHandles::Multiple(v) => v@,
        }
    }

    /// The handles in order, as a vector.
    pub fn as_slice(&self) -> (r: Vec<Option<Handle>>)
        ensures
            r@ == self.spec_handles(),
    {
        match self {
            IPCHandles::Single(h) => {
                let mut v = Vec::new();
                v.push(*h);
                v
            },
            IPCHandles::Multiple(hs) => {
                let mut v = Vec::new();
                let mut i: usize = 0;
                while i < hs.len()
                    invariant
                        i <= hs@.len(),
                        v@ == hs@.subrange(0, i as int),
                    decreases hs@.len() - i,
                {
                    v.push(hs[i]);
                    i = i + 1;
                }
                assert(v@ =~= hs@);
                v
            },
        }
    }
}

/// A translate parameter of an IPC message.
#[derive(Debug)]
pub enum IPCTranslateParameter {
    Handle { moved: bool, calling_process: bool, handles: IPCHandles },
    StaticBuffer { index: u8, size: u32, ptr: u32 },
    BufferMapping { permission: u8, size: u32, ptr: u32 },
}

/// The meaning of a translate parameter.
pub ghost enum TranslateView {
    Handle { moved: bool, calling_process: bool, single: bool, handles: Seq<Option<Handle>> },
    StaticBuffer { index: u8, size: u32, ptr: u32 },
    BufferMapping { permission: u8, size: u32, ptr: u32 },
}

impl View for IPCTranslateParameter {
    type V = TranslateView;

    open spec fn view(&self) -> TranslateView {
        match self {
            IPCTranslateParameter::Handle { moved, calling_process, handles } => TranslateView::Handle {
                moved: *moved,
                calling_process: *calling_process,
                single: handles is Single,
                handles: handles.spec_handles(),
            },
            IPCTranslateParameter::StaticBuffer { index, size, ptr } => TranslateView::StaticBuffer {
                index: *index,
                size: *size,
                ptr: *ptr,
            },
            IPCTranslateParameter::BufferMapping { permission, size, ptr } => TranslateView::BufferMapping {
                permission: *permission,
                size: *size,
                ptr: *ptr,
            },
        }
    }
}

/// The handle-count field of a handle descriptor (one less than the count).
pub open spec fn handle_count_field(d: u32) -> u32 {
    (d & 0xFC000000u32) >> 26u32
}

/// The number of words after a descriptor that belong to its parameter.
pub open spec fn payload_words(d: u32) -> nat {
    if d & 7u32 == 0 {
        if handle_count_field(d) == 0 {
            1
        } else {
            handle_count_field(d) as nat + 1
        }
    } else {
        1
    }
}

/// A handle word as it is read: the calling-process flag replaces every
/// handle by the pseudo-handle of the calling process.
pub open spec fn decode_handle(raw: u32, calling_process: bool) -> Option<Handle> {
    if calling_process {
        Handle::spec_from(CURRENT_PROCESS_HANDLE)
    } else {
        Handle::spec_from(raw)
    }
}

/// The translate parameter whose descriptor is `words[0]` and whose payload
/// follows it. The kernel's reader (`kernel_reader`) and a service's reader
/// decode the permission of a buffer mapping from different bits.
pub open spec fn spec_decode_translate(words: Seq<u32>, kernel_reader: bool) -> TranslateView {
    let d = words[0];
    if d & 7u32 == 0 {
        let calling = (d & 32u32) != 0;
        TranslateView::Handle {
            moved: (d & 16u32) != 0,
            calling_process: calling,
            single: handle_count_field(d) == 0,
            handles: Seq::new(payload_words(d), |i: int| decode_handle(words[1 + i], calling)),
        }
    } else if d & 7u32 == 1 {
        TranslateView::StaticBuffer {
            index: ((d & 0x3C00u32) >> 10u32) as u8,
            size: (d & 0xFFFFC000u32) >> 14u32,
            ptr: words[1],
        }
    } else {
        TranslateView::BufferMapping {
            permission: if kernel_reader {
                (((d & 7u32) & 6u32) >> 1u32) as u8
            } else {
                ((d & 7u32) & 3u32) as u8
            },
            size: (d & 0xFFFFFFF0u32) >> 4u32,
            ptr: words[1],
        }
    }
}

/// The descriptor word of a handle parameter with `len` handles.
pub open spec fn spec_handle_descriptor(moved: bool, calling_process: bool, len: nat) -> u32 {
    (if moved { 16u32 } else { 0u32 }) | (if calling_process { 32u32 } else { 0u32 }) | (((len - 1) as u32)
        << 26u32)
}

/// The words of a handle parameter: its descriptor, then each handle's raw
/// value (zero for none).
pub open spec fn spec_encode_handles(moved: bool, calling_process: bool, handles: Seq<Option<Handle>>) -> Seq<u32> {
    Seq::new(
        handles.len() + 1,
        |i: int|
            if i == 0 {
                spec_handle_descriptor(moved, calling_process, handles.len())
            } else {
                spec_raw_or_zero(handles[i - 1])
            },
    )
}

proof fn lemma_descriptor_bits(m: u32, c: u32, k: u32)
    requires
        m == 0 || m == 16,
        c == 0 || c == 32,
        k < 64,
    ensures
        (m | c | (k << 26u32)) & 7u32 == 0,
        ((m | c | (k << 26u32)) & 16u32 != 0) == (m == 16),
        ((m | c | (k << 26u32)) & 32u32 != 0) == (c == 32),
        ((m | c | (k << 26u32)) & 0xFC000000u32) >> 26u32 == k,
{
    assert((m | c | (k << 26u32)) & 7u32 == 0) by (bit_vector)
        requires
            m == 0 || m == 16,
            c == 0 || c == 32,
    ;
    assert(((m | c | (k << 26u32)) & 16u32 != 0) == (m == 16)) by (bit_vector)
        requires
            m == 0 || m == 16,
            c == 0 || c == 32,
    ;
    assert(((m | c | (k << 26u32)) & 32u32 != 0) == (c == 32)) by (bit_vector)
        requires
            m == 0 || m == 16,
            c == 0 || c == 32,
    ;
    assert(((m | c | (k << 26u32)) & 0xFC000000u32) >> 26u32 == k) by (bit_vector)
        requires
            m == 0 || m == 16,
            c == 0 || c == 32,
            k < 64,
    ;
}

/// Facts about a handle descriptor that the encoder writes.
pub proof fn lemma_handle_descriptor(moved: bool, calling_process: bool, len: nat)
    requires
        1 <= len <= 64,
    ensures
        ({
            let d = spec_handle_descriptor(moved, calling_process, len);
            &&& d & 7u32 == 0
            &&& ((d & 16u32) != 0) == moved
            &&& ((d & 32u32) != 0) == calling_process
            &&& handle_count_field(d) == len - 1
            &&& payload_words(d) == len
        }),
{
    let m: u32 = if moved { 16u32 } else { 0u32 };
    let c: u32 = if calling_process { 32u32 } else { 0u32 };
    let k: u32 = (len - 1) as u32;
    lemma_descriptor_bits(m, c, k);
}

/// A handle parameter written without the calling-process flag is read back
/// with the same flags and the same handles, for one to 64 handles.
pub proof fn law_handle_parameter_roundtrip(moved: bool, handles: Seq<Option<Handle>>, kernel_reader: bool)
    requires
        1 <= handles.len() <= 64,
        forall|i: int| 0 <= i < handles.len() ==> #[trigger] spec_handle_valid(handles[i]),
    ensures
        spec_decode_translate(spec_encode_handles(moved, false, handles), kernel_reader) == (TranslateView::Handle {
            moved,
            calling_process: false,
            single: handles.len() == 1,
            handles,
        }),
{
    lemma_handle_descriptor(moved, false, handles.len());
    let words = spec_encode_handles(moved, false, handles);
    let got = Seq::new(payload_words(words[0]), |i: int| decode_handle(words[1 + i], false));
    assert forall|i: int| 0 <= i < handles.len() implies got[i] == handles[i] by {
        assert(spec_handle_valid(handles[i]));
        assert(words[1 + i] == spec_raw_or_zero(handles[i]));
        match handles[i] {
            Some(h) => {
                Handle::lemma_of_raw(h);
            },
            None => {},
        }
    }
    assert(got =~= handles);
}

/// Whether the `left` translate words from word `w` on are handle
/// parameters, each wholly inside them and inside the buffer.
pub open spec fn spec_handle_section(data: Seq<u8>, w: nat, left: nat) -> bool
    decreases left,
{
    if left == 0 {
        true
    } else {
        let d = word_at(data, w as int);
        &&& d & 7u32 == 0
        &&& 1 + payload_words(d) <= left
        &&& 4 * (w + 1 + payload_words(d)) <= data.len()
        &&& spec_handle_section(data, w + 1 + payload_words(d), (left - 1 - payload_words(d)) as nat)
    }
}

/// Whether word `p` is the descriptor of one of the parameters in the
/// `left` translate words from word `w` on.
pub open spec fn spec_descriptor_at(data: Seq<u8>, w: nat, left: nat, p: int) -> bool
    decreases left,
{
    if left == 0 {
        false
    } else {
        let d = word_at(data, w as int);
        if 1 + payload_words(d) <= left {
            p == w || spec_descriptor_at(data, w + 1 + payload_words(d), (left - 1 - payload_words(d)) as nat, p)
        } else {
            false
        }
    }
}

/// Word `i` of the payload of the parameter whose descriptor is word `p`.
pub open spec fn payload_word(data: Seq<u8>, p: int, i: int) -> u32 {
    word_at(data, p + 1 + i)
}

/// Handle `i` of the parameter whose descriptor is word `p`, as it is read.
pub open spec fn param_handle(data: Seq<u8>, p: int, i: int) -> Option<Handle> {
    decode_handle(payload_word(data, p, i), (word_at(data, p) & 32u32) != 0)
}

/// A descriptor among the `left` words from word `w` on lies, with its
/// payload, within them.
pub proof fn lemma_descriptor_within(data: Seq<u8>, w: nat, left: nat, p: int)
    requires
        spec_descriptor_at(data, w, left, p),
    ensures
        w <= p,
        p + 1 + payload_words(word_at(data, p)) <= w + left,
    decreases left,
{
    let d = word_at(data, w as int);
    if p != w {
        lemma_descriptor_within(data, w + 1 + payload_words(d), (left - 1 - payload_words(d)) as nat, p);
    }
}

/// The word index where the parameters of a request (after the header) or
/// of a reply (after the header and the result code) start.
pub open spec fn spec_params_start(reply: bool) -> nat {
    if reply {
        2
    } else {
        1
    }
}

/// Whether the kernel can carry a message to another thread, translating
/// its handles: it fits the IPC data area and its translate section holds
/// handle parameters only.
pub open spec fn spec_translatable(data: Seq<u8>, reply: bool) -> bool {
    let h = IPCHeaderCode::spec_decode(word_at(data, 0));
    let start = spec_params_start(reply);
    &&& data.len() == IPC_REQUEST_SIZE
    &&& 4 * (start + h.normal_parameter_count + h.translate_parameter_size) <= data.len()
    &&& spec_handle_section(data, (start + h.normal_parameter_count) as nat, h.translate_parameter_size as nat)
}

/// Whether the kernel can carry a message to another thread; see
/// `spec_translatable`.
pub fn translatable(data: &[u8], reply: bool) -> (r: bool)
    ensures
        r == spec_translatable(data@, reply),
{
    if data.len() != IPC_REQUEST_SIZE {
        return false;
    }
    let header = IPCHeaderCode::from_word(read_word(data, 0));
    let start: usize = if reply { 2 } else { 1 };
    let n = header.normal_parameter_count as usize;
    let t = header.translate_parameter_size as usize;
    if 4 * (start + n + t) > data.len() {
        return false;
    }
    let mut w: usize = start + n;
    let mut left: usize = t;
    while left > 0
        invariant
            data@.len() == IPC_REQUEST_SIZE,
            w + left <= start + n + t,
            4 * (start + n + t) <= data@.len(),
            spec_translatable(data@, reply) == spec_handle_section(data@, w as nat, left as nat),
            start == spec_params_start(reply),
            n == IPCHeaderCode::spec_decode(word_at(data@, 0)).normal_parameter_count,
            t == IPCHeaderCode::spec_decode(word_at(data@, 0)).translate_parameter_size,
        decreases left,
    {
        let d = read_word(data, 4 * w);
        if d & 7u32 != 0 {
            return false;
        }
        let count = (d & 0xFC000000u32) >> 26u32;
        assert(count < 64) by (bit_vector)
            requires
                count == (d & 0xFC000000u32) >> 26u32,
        ;
        let p: usize = if count == 0 { 1 } else { count as usize + 1 };
        assert(p == payload_words(d));
        if p >= left {
            return false;
        }
        w = w + 1 + p;
        left = left - 1 - p;
    }
    true
}

/// Reads the translate parameter at word `w`: returns it and the index of
/// the word after it.
fn read_translate_at(data: &[u8], w: usize, kernel_reader: bool) -> (r: (IPCTranslateParameter, usize))
    requires
        4 * (w + 1 + payload_words(word_at(data@, w as int))) <= data@.len(),
    ensures
        r.1 == w + 1 + payload_words(word_at(data@, w as int)),
        r.0@ == spec_decode_translate(
            Seq::new((data@.len() / 4 - w) as nat, |i: int| word_at(data@, w + i)),
            kernel_reader,
        ),
{
    let ghost words = Seq::new((data@.len() / 4 - w) as nat, |i: int| word_at(data@, w + i));
    let len = data.len();
    let descriptor = read_word(data, 4 * w);
    assert(words[0] == descriptor);
    if descriptor & 7u32 == 0 {
        let moved = (descriptor & 16u32) != 0;
        let calling_process = (descriptor & 32u32) != 0;
        let count = (descriptor & 0xFC000000u32) >> 26u32;
        assert(count < 64) by (bit_vector)
            requires
                count == (descriptor & 0xFC000000u32) >> 26u32,
        ;
        if count == 0 {
            let raw = read_word(data, 4 * (w + 1));
            let handle = if calling_process {
                Handle::from_raw(CURRENT_PROCESS_HANDLE)
            } else {
                Handle::from_raw(raw)
            };
            let ghost expect = Seq::new(payload_words(descriptor), |i: int| decode_handle(words[1 + i], calling_process));
            assert(words[1] == raw);
            assert(seq![handle] =~= expect);
            (IPCTranslateParameter::Handle { moved, calling_process, handles: IPCHandles::Single(handle) }, w + 2)
        } else {
            let n: usize = count as usize + 1;
            let mut v: Vec<Option<Handle>> = Vec::new();
            let mut i: usize = 0;
            while i < n
                invariant
                    n == payload_words(descriptor),
                    4 * (w + 1 + n) <= data@.len(),
                    len == data@.len(),
                    i <= n,
                    words == Seq::new((data@.len() / 4 - w) as nat, |i: int| word_at(data@, w + i)),
                    v@ == Seq::new(i as nat, |j: int| decode_handle(words[1 + j], calling_process)),
                decreases n - i,
            {
                let raw = read_word(data, 4 * (w + 1 + i));
                assert(words[1 + i] == raw);
                let handle = if calling_process {
                    Handle::from_raw(CURRENT_PROCESS_HANDLE)
                } else {
                    Handle::from_raw(raw)
                };
                v.push(handle);
                i = i + 1;
                assert(v@ =~= Seq::new(i as nat, |j: int| decode_handle(words[1 + j], calling_process)));
            }
            (IPCTranslateParameter::Handle { moved, calling_process, handles: IPCHandles::Multiple(v) }, w + 1 + n)
        }
    } else if descriptor & 7u32 == 1 {
        let index = ((descriptor & 0x3C00u32) >> 10u32) as u8;
        let size = (descriptor & 0xFFFFC000u32) >> 14u32;
        let ptr = read_word(data, 4 * (w + 1));
        assert(words[1] == ptr);
        (IPCTranslateParameter::StaticBuffer { index, size, ptr }, w + 2)
    } else {
        let n = descriptor & 7u32;
        let permission = if kernel_reader {
            ((n & 6u32) >> 1u32) as u8
        } else {
            (n & 3u32) as u8
        };
        let size = (descriptor & 0xFFFFFFF0u32) >> 4u32;
        let ptr = read_word(data, 4 * (w + 1));
        assert(words[1] == ptr);
        (IPCTranslateParameter::BufferMapping { permission, size, ptr }, w + 2)
    }
}

/// A reader of a received IPC request or reply.
pub struct IPCReader<'a> {
    header: IPCHeaderCode,
    result: u32,
    data: &'a [u8],
    word: usize,
    normal_parameter_count: u8,
    translate_parameter_words: u8,
}

impl<'a> IPCReader<'a> {
    pub closed spec fn spec_header(&self) -> IPCHeaderCode {
        self.header
    }

    pub closed spec fn spec_result(&self) -> u32 {
        self.result
    }

    pub closed spec fn spec_data(&self) -> Seq<u8> {
        self.data@
    }

    /// The index of the next word to be read.
    pub closed spec fn spec_word(&self) -> nat {
        self.word as nat
    }

    pub closed spec fn spec_normal_left(&self) -> nat {
        self.normal_parameter_count as nat
    }

    pub closed spec fn spec_translate_left(&self) -> nat {
        self.translate_parameter_words as nat
    }

    /// The words from the next one to the end of the buffer.
    pub open spec fn spec_rest(&self) -> Seq<u32> {
        Seq::new(
            (self.spec_data().len() / 4 - self.spec_word()) as nat,
            |i: int| word_at(self.spec_data(), self.spec_word() + i),
        )
    }

    /// Starts reading a request: the header is the first word.
    pub fn new_request(data: &'a [u8]) -> (r: IPCReader<'a>)
        requires
            data@.len() >= 4,
        ensures
            r.spec_data() == data@,
            r.spec_header() == IPCHeaderCode::spec_decode(word_at(data@, 0)),
            r.spec_result() == 0,
            r.spec_word() == 1,
            r.spec_normal_left() == r.spec_header().normal_parameter_count,
            r.spec_translate_left() == r.spec_header().translate_parameter_size,
    {
        let header = IPCHeaderCode::from_word(read_word(data, 0));
        IPCReader {
            header,
            result: 0,
            data,
            word: 1,
            normal_parameter_count: header.normal_parameter_count,
            translate_parameter_words: header.translate_parameter_size,
        }
    }

    /// Starts reading a reply: the header, then the result code.
    pub fn new_response(data: &'a [u8]) -> (r: IPCReader<'a>)
        requires
            data@.len() >= 8,
        ensures
            r.spec_data() == data@,
            r.spec_header() == IPCHeaderCode::spec_decode(word_at(data@, 0)),
            r.spec_result() == word_at(data@, 1),
            r.spec_word() == 2,
            r.spec_normal_left() == r.spec_header().normal_parameter_count,
            r.spec_translate_left() == r.spec_header().translate_parameter_size,
    {
        let header = IPCHeaderCode::from_word(read_word(data, 0));
        let result = read_word(data, 4);
        IPCReader {
            header,
            result,
            data,
            word: 2,
            normal_parameter_count: header.normal_parameter_count,
            translate_parameter_words: header.translate_parameter_size,
        }
    }

    pub fn header(&self) -> (r: IPCHeaderCode)
        ensures
            r == self.spec_header(),
    {
        self.header
    }

    pub fn result(&self) -> (r: u32)
        ensures
            r == self.spec_result(),
    {
        self.result
    }

    /// Reads the next normal parameter.
    pub fn read_normal(&mut self) -> (r: u32)
        requires
            old(self).spec_normal_left() > 0,
            4 * (old(self).spec_word() + 1) <= old(self).spec_data().len(),
        ensures
            r == word_at(old(self).spec_data(), old(self).spec_word() as int),
            final(self).spec_word() == old(self).spec_word() + 1,
            final(self).spec_normal_left() == old(self).spec_normal_left() - 1,
            final(self).spec_translate_left() == old(self).spec_translate_left(),
            final(self).spec_data() == old(self).spec_data(),
            final(self).spec_header() == old(self).spec_header(),
            final(self).spec_result() == old(self).spec_result(),
    {
        let len = self.data.len();
        self.normal_parameter_count = self.normal_parameter_count - 1;
        let r = read_word(self.data, 4 * self.word);
        self.word = self.word + 1;
        r
    }

    /// Whether translate parameter words are left to read.
    pub fn has_more_translate_params(&self) -> (r: bool)
        ensures
            r == (self.spec_translate_left() > 0),
    {
        self.translate_parameter_words > 0
    }

    /// Reads one handle word of the translate section.
    pub fn read_translate_handle(&mut self) -> (r: Option<Handle>)
        requires
            old(self).spec_translate_left() > 0,
            4 * (old(self).spec_word() + 1) <= old(self).spec_data().len(),
        ensures
            r == Handle::spec_from(word_at(old(self).spec_data(), old(self).spec_word() as int)),
            final(self).spec_word() == old(self).spec_word() + 1,
            final(self).spec_translate_left() == old(self).spec_translate_left() - 1,
            final(self).spec_normal_left() == old(self).spec_normal_left(),
            final(self).spec_data() == old(self).spec_data(),
            final(self).spec_header() == old(self).spec_header(),
            final(self).spec_result() == old(self).spec_result(),
    {
        let len = self.data.len();
        self.translate_parameter_words = self.translate_parameter_words - 1;
        let raw = read_word(self.data, 4 * self.word);
        self.word = self.word + 1;
        Handle::from_raw(raw)
    }

    /// Reads the next translate parameter, once the normal parameters have
    /// all been read.
    pub fn read_translate(&mut self) -> (r: IPCTranslateParameter)
        requires
            old(self).spec_normal_left() == 0,
            1 + payload_words(word_at(old(self).spec_data(), old(self).spec_word() as int))
                <= old(self).spec_translate_left(),
            4 * (old(self).spec_word() + 1 + payload_words(
                word_at(old(self).spec_data(), old(self).spec_word() as int),
            )) <= old(self).spec_data().len(),
        ensures
            r@ == spec_decode_translate(old(self).spec_rest(), true),
            final(self).spec_word() == old(self).spec_word() + 1 + payload_words(old(self).spec_rest()[0]),
            final(self).spec_translate_left() == old(self).spec_translate_left() - 1 - payload_words(
                old(self).spec_rest()[0],
            ),
            final(self).spec_normal_left() == 0,
            final(self).spec_data() == old(self).spec_data(),
            final(self).spec_header() == old(self).spec_header(),
            final(self).spec_result() == old(self).spec_result(),
    {
        let ghost d = word_at(self.data@, self.word as int);
        assert(self.spec_rest()[0] == d);
        let (param, next) = read_translate_at(self.data, self.word, true);
        let used = next - self.word;
        self.translate_parameter_words = self.translate_parameter_words - used as u8;
        self.word = next;
        param
    }
}

/// Reading a word takes it off the front of the words left to read, so
/// successive reads give back the message's words in order; the reader's
/// data, and so every word a writer put there, stays as it was.
pub proof fn law_read_takes_front<'a>(before: IPCReader<'a>, after: IPCReader<'a>, r: u32)
    requires
        4 * (before.spec_word() + 1) <= before.spec_data().len(),
        r == word_at(before.spec_data(), before.spec_word() as int),
        after.spec_data() == before.spec_data(),
        after.spec_word() == before.spec_word() + 1,
    ensures
        r == before.spec_rest()[0],
        after.spec_rest() == before.spec_rest().drop_first(),
{
    assert(after.spec_rest() =~= before.spec_rest().drop_first());
}

/// `after` is `before` having read the normal word `r`, as `read_normal`
/// does.
pub open spec fn spec_normal_read<'a>(before: IPCReader<'a>, after: IPCReader<'a>, r: u32) -> bool {
    &&& before.spec_normal_left() > 0
    &&& r == word_at(before.spec_data(), before.spec_word() as int)
    &&& after.spec_word() == before.spec_word() + 1
    &&& after.spec_normal_left() == before.spec_normal_left() - 1
    &&& after.spec_translate_left() == before.spec_translate_left()
    &&& after.spec_data() == before.spec_data()
    &&& after.spec_header() == before.spec_header()
}

/// `after` is `before` having read one translate parameter, as
/// `read_translate` does: its descriptor and its payload words.
pub open spec fn spec_translate_read<'a>(before: IPCReader<'a>, after: IPCReader<'a>) -> bool {
    let d = word_at(before.spec_data(), before.spec_word() as int);
    &&& before.spec_normal_left() == 0
    &&& 1 + payload_words(d) <= before.spec_translate_left()
    &&& after.spec_word() == before.spec_word() + 1 + payload_words(d)
    &&& after.spec_translate_left() == before.spec_translate_left() - 1 - payload_words(d)
    &&& after.spec_normal_left() == 0
    &&& after.spec_data() == before.spec_data()
    &&& after.spec_header() == before.spec_header()
}

/// Successive normal reads give back the words of the reader's data from
/// its next word on, in order; no more of them can be read than were
/// declared, and they leave the translate words to read as they were.
pub proof fn law_normal_reads_in_order<'a>(readers: Seq<IPCReader<'a>>, results: Seq<u32>)
    requires
        readers.len() == results.len() + 1,
        forall|i: int| 0 <= i < results.len() ==> #[trigger] spec_normal_read(readers[i], readers[i + 1], results[i]),
    ensures
        results.len() <= readers[0].spec_normal_left(),
        forall|i: int| 0 <= i < results.len() ==> #[trigger] results[i] == word_at(readers[0].spec_data(), readers[0].spec_word() + i),
        readers[results.len() as int].spec_word() == readers[0].spec_word() + results.len(),
        readers[results.len() as int].spec_normal_left() == readers[0].spec_normal_left() - results.len(),
        readers[results.len() as int].spec_translate_left() == readers[0].spec_translate_left(),
        readers[results.len() as int].spec_data() == readers[0].spec_data(),
        readers[results.len() as int].spec_header() == readers[0].spec_header(),
    decreases results.len(),
{
    if results.len() > 0 {
        let k = results.len() - 1;
        let rs = readers.subrange(0, k + 1);
        let vs = results.subrange(0, k);
        assert forall|i: int| 0 <= i < vs.len() implies #[trigger] spec_normal_read(rs[i], rs[i + 1], vs[i]) by {
            assert(spec_normal_read(readers[i], readers[i + 1], results[i]));
        }
        law_normal_reads_in_order(rs, vs);
        assert(spec_normal_read(readers[k], readers[k + 1], results[k]));
        assert forall|i: int| 0 <= i < results.len() implies #[trigger] results[i] == word_at(
            readers[0].spec_data(),
            readers[0].spec_word() + i,
        ) by {
            if i < k {
                assert(vs[i] == results[i]);
            }
        }
    }
}

/// `after` is `before` having read either a normal word or a translate
/// parameter.
pub open spec fn spec_read_step<'a>(before: IPCReader<'a>, after: IPCReader<'a>) -> bool {
    (exists|r: u32| spec_normal_read(before, after, r)) || spec_translate_read(before, after)
}

/// The translate words taken by the first `i` reads of a chain of reads:
/// a normal read takes none, a translate read its descriptor and payload.
pub open spec fn spec_translate_taken<'a>(readers: Seq<IPCReader<'a>>, i: int) -> int
    decreases i,
{
    if i <= 0 {
        0
    } else {
        let b = readers[i - 1];
        spec_translate_taken(readers, i - 1) + if spec_translate_read(b, readers[i]) {
            1 + payload_words(word_at(b.spec_data(), b.spec_word() as int))
        } else {
            0
        }
    }
}

/// Translate words remain to be read (what `has_more_translate_params`
/// tells) exactly until the reads have taken all the declared translate
/// words: normal reads take none, each translate read takes its descriptor
/// and payload, and no read takes more than remain.
pub proof fn law_translate_words_remain<'a>(readers: Seq<IPCReader<'a>>)
    requires
        readers.len() >= 1,
        forall|i: int| 0 <= i < readers.len() - 1 ==> #[trigger] spec_read_step(readers[i], readers[i + 1]),
    ensures
        forall|i: int| 0 <= i < readers.len() ==> 0 <= #[trigger] spec_translate_taken(readers, i) <= readers[0].spec_translate_left(),
        forall|i: int| 0 <= i < readers.len() ==> #[trigger] readers[i].spec_translate_left() == readers[0].spec_translate_left()
            - spec_translate_taken(readers, i),
        forall|i: int| 0 <= i < readers.len() ==> (#[trigger] readers[i].spec_translate_left() > 0 <==> spec_translate_taken(readers, i)
            < readers[0].spec_translate_left()),
    decreases readers.len(),
{
    if readers.len() > 1 {
        let k = readers.len() - 2;
        let rs = readers.subrange(0, k + 1);
        assert forall|i: int| 0 <= i < rs.len() - 1 implies #[trigger] spec_read_step(rs[i], rs[i + 1]) by {
            assert(rs[i] == readers[i] && rs[i + 1] == readers[i + 1]);
        }
        law_translate_words_remain(rs);
        assert forall|i: int| 0 <= i <= k implies #[trigger] spec_translate_taken(readers, i) == spec_translate_taken(rs, i) by {
            lemma_taken_prefix(readers, rs, i);
        }
        assert(rs[k] == readers[k]);
        assert(spec_read_step(readers[k], readers[k + 1]));
        assert(spec_translate_taken(readers, k + 1) == spec_translate_taken(readers, k) + if spec_translate_read(readers[k], readers[k + 1]) {
            1 + payload_words(word_at(readers[k].spec_data(), readers[k].spec_word() as int))
        } else {
            0
        });
        assert forall|i: int| 0 <= i < readers.len() implies #[trigger] readers[i].spec_translate_left() == readers[0].spec_translate_left()
            - spec_translate_taken(readers, i) by {
            if i <= k {
                assert(rs[i] == readers[i]);
            }
        }
    }
}

proof fn lemma_taken_prefix<'a>(readers: Seq<IPCReader<'a>>, rs: Seq<IPCReader<'a>>, i: int)
    requires
        rs.len() <= readers.len(),
        forall|j: int| 0 <= j < rs.len() ==> rs[j] == readers[j],
        0 <= i < rs.len(),
    ensures
        spec_translate_taken(readers, i) == spec_translate_taken(rs, i),
    decreases i,
{
    if i > 0 {
        lemma_taken_prefix(readers, rs, i - 1);
        assert(rs[i - 1] == readers[i - 1]);
        assert(rs[i] == readers[i]);
    }
}

/// `after` is `before` having appended the normal word `v`, as
/// `write_normal` does.
pub open spec fn spec_normal_written(before: IPCWriter, after: IPCWriter, v: u32) -> bool {
    &&& after.wf()
    &&& after.spec_command_id() == before.spec_command_id()
    &&& after.spec_normal_count() == before.spec_normal_count() + 1
    &&& after.spec_translate_size() == before.spec_translate_size()
    &&& after.spec_word() == before.spec_word() + 1
    &&& word_at(after.spec_data(), before.spec_word() as int) == v
    &&& forall|j: int| 1 <= j < before.spec_word() ==> #[trigger] word_at(after.spec_data(), j) == word_at(before.spec_data(), j)
}

/// `after` is `before` having appended a translate parameter, as
/// `write_translate` does: each word it appends counts as a translate
/// word, and the words before it stay.
pub open spec fn spec_translate_written(before: IPCWriter, after: IPCWriter) -> bool {
    &&& after.wf()
    &&& after.spec_command_id() == before.spec_command_id()
    &&& after.spec_normal_count() == before.spec_normal_count()
    &&& after.spec_word() > before.spec_word()
    &&& after.spec_translate_size() == before.spec_translate_size() + (after.spec_word() - before.spec_word())
    &&& forall|j: int| 1 <= j < before.spec_word() ==> #[trigger] word_at(after.spec_data(), j) == word_at(before.spec_data(), j)
}

/// Whether `writers` is a request being written: a fresh request writer,
/// then one normal write for each of `values`, then translate writes.
pub open spec fn spec_request_written(writers: Seq<IPCWriter>, values: Seq<u32>) -> bool {
    &&& writers.len() >= values.len() + 1
    &&& writers[0].wf()
    &&& writers[0].spec_word() == 1
    &&& writers[0].spec_normal_count() == 0
    &&& writers[0].spec_translate_size() == 0
    &&& forall|i: int| 0 <= i < values.len() ==> #[trigger] spec_normal_written(writers[i], writers[i + 1], values[i])
    &&& forall|i: int| values.len() <= i < writers.len() - 1 ==> #[trigger] spec_translate_written(writers[i], writers[i + 1])
}

proof fn lemma_request_written(writers: Seq<IPCWriter>, values: Seq<u32>, m: int)
    requires
        spec_request_written(writers, values),
        0 <= m < writers.len(),
    ensures
        writers[m].wf(),
        writers[m].spec_command_id() == writers[0].spec_command_id(),
        writers[m].spec_normal_count() == if m <= values.len() { m } else { values.len() as int },
        writers[m].spec_word() == 1 + writers[m].spec_normal_count() + writers[m].spec_translate_size(),
        m <= values.len() ==> writers[m].spec_translate_size() == 0,
        forall|i: int| 0 <= i < values.len() && i < m ==> #[trigger] word_at(writers[m].spec_data(), 1 + i) == values[i],
    decreases m,
{
    if m > 0 {
        let k = m - 1;
        lemma_request_written(writers, values, k);
        if k < values.len() {
            assert(spec_normal_written(writers[k], writers[k + 1], values[k]));
        } else {
            assert(spec_translate_written(writers[k], writers[k + 1]));
        }
        assert forall|i: int| 0 <= i < values.len() && i < m implies #[trigger] word_at(writers[m].spec_data(), 1 + i) == values[i] by {
            assert(writers[k + 1] == writers[m]);
            if i < k {
                assert(word_at(writers[k].spec_data(), 1 + i) == values[i]);
                assert(word_at(writers[k + 1].spec_data(), 1 + i) == word_at(writers[k].spec_data(), 1 + i));
            } else {
                assert(word_at(writers[k + 1].spec_data(), writers[k].spec_word() as int) == values[k]);
            }
        }
    }
}

/// A request written as a header, normal words and translate parameters
/// reads back as written: its header gives the command and both counts,
/// and reading its normal words gives them back in order.
pub proof fn law_request_roundtrip<'a>(
    writers: Seq<IPCWriter>,
    values: Seq<u32>,
    readers: Seq<IPCReader<'a>>,
    results: Seq<u32>,
)
    requires
        spec_request_written(writers, values),
        writers.last().spec_normal_count() < 64,
        writers.last().spec_translate_size() < 64,
        readers.len() == results.len() + 1,
        results.len() == values.len(),
        readers[0].spec_data() == writers.last().spec_data(),
        readers[0].spec_word() == 1,
        readers[0].spec_header() == IPCHeaderCode::spec_decode(word_at(readers[0].spec_data(), 0)),
        forall|i: int| 0 <= i < results.len() ==> #[trigger] spec_normal_read(readers[i], readers[i + 1], results[i]),
    ensures
        readers[0].spec_header() == (IPCHeaderCode {
            command_id: writers[0].spec_command_id(),
            normal_parameter_count: values.len() as u8,
            translate_parameter_size: writers.last().spec_translate_size() as u8,
        }),
        results == values,
{
    let m = writers.len() - 1;
    lemma_request_written(writers, values, m);
    law_header_roundtrip(writers[m].spec_header());
    law_normal_reads_in_order(readers, results);
    assert forall|i: int| 0 <= i < values.len() implies results[i] == values[i] by {
        assert(results[i] == word_at(readers[0].spec_data(), readers[0].spec_word() + i));
        assert(word_at(writers[m].spec_data(), 1 + i) == values[i]);
    }
    assert(results =~= values);
}

/// A reader of a request handed to a service.
pub struct IPCRequest<'a> {
    reader: IPCReader<'a>,
}

impl<'a> IPCRequest<'a> {
    pub closed spec fn spec_reader(&self) -> IPCReader<'a> {
        self.reader
    }

    pub fn new(data: &'a [u8]) -> (r: IPCRequest<'a>)
        requires
            data@.len() >= 4,
        ensures
            r.spec_reader().spec_data() == data@,
            r.spec_reader().spec_header() == IPCHeaderCode::spec_decode(word_at(data@, 0)),
            r.spec_reader().spec_word() == 1,
            r.spec_reader().spec_normal_left() == r.spec_reader().spec_header().normal_parameter_count,
            r.spec_reader().spec_translate_left()
                == r.spec_reader().spec_header().translate_parameter_size,
    {
        IPCRequest { reader: IPCReader::new_request(data) }
    }

    pub fn header(&self) -> (r: IPCHeaderCode)
        ensures
            r == self.spec_reader().spec_header(),
    {
        self.reader.header()
    }

    pub fn read_normal(&mut self) -> (r: u32)
        requires
            old(self).spec_reader().spec_normal_left() > 0,
            4 * (old(self).spec_reader().spec_word() + 1) <= old(self).spec_reader().spec_data().len(),
        ensures
            r == word_at(old(self).spec_reader().spec_data(), old(self).spec_reader().spec_word() as int),
            final(self).spec_reader().spec_word() == old(self).spec_reader().spec_word() + 1,
            final(self).spec_reader().spec_normal_left() == old(self).spec_reader().spec_normal_left() - 1,
            final(self).spec_reader().spec_translate_left() == old(self).spec_reader().spec_translate_left(),
            final(self).spec_reader().spec_data() == old(self).spec_reader().spec_data(),
            final(self).spec_reader().spec_header() == old(self).spec_reader().spec_header(),
    {
        self.reader.read_normal()
    }

    pub fn read_translate_handle(&mut self) -> (r: Option<Handle>)
        requires
            old(self).spec_reader().spec_translate_left() > 0,
            4 * (old(self).spec_reader().spec_word() + 1) <= old(self).spec_reader().spec_data().len(),
        ensures
            r == Handle::spec_from(
                word_at(old(self).spec_reader().spec_data(), old(self).spec_reader().spec_word() as int),
            ),
            final(self).spec_reader().spec_word() == old(self).spec_reader().spec_word() + 1,
            final(self).spec_reader().spec_translate_left() == old(self).spec_reader().spec_translate_left() - 1,
            final(self).spec_reader().spec_normal_left() == old(self).spec_reader().spec_normal_left(),
            final(self).spec_reader().spec_data() == old(self).spec_reader().spec_data(),
    {
        self.reader.read_translate_handle()
    }

    /// Reads the next translate parameter; a request decodes the permission
    /// of a buffer mapping from the two low bits of its type.
    pub fn read_translate(&mut self) -> (r: IPCTranslateParameter)
        requires
            old(self).spec_reader().spec_normal_left() == 0,
            1 + payload_words(word_at(old(self).spec_reader().spec_data(), old(self).spec_reader().spec_word() as int))
                <= old(self).spec_reader().spec_translate_left(),
            4 * (old(self).spec_reader().spec_word() + 1 + payload_words(
                word_at(old(self).spec_reader().spec_data(), old(self).spec_reader().spec_word() as int),
            )) <= old(self).spec_reader().spec_data().len(),
        ensures
            r@ == spec_decode_translate(old(self).spec_reader().spec_rest(), false),
            final(self).spec_reader().spec_word() == old(self).spec_reader().spec_word() + 1 + payload_words(
                old(self).spec_reader().spec_rest()[0],
            ),
            final(self).spec_reader().spec_translate_left() == old(self).spec_reader().spec_translate_left() - 1
                - payload_words(old(self).spec_reader().spec_rest()[0]),
            final(self).spec_reader().spec_normal_left() == 0,
            final(self).spec_reader().spec_data() == old(self).spec_reader().spec_data(),
    {
        let ghost d = word_at(self.reader.data@, self.reader.word as int);
        assert(self.reader.spec_rest()[0] == d);
        let (param, next) = read_translate_at(self.reader.data, self.reader.word, false);
        let used = next - self.reader.word;
        self.reader.translate_parameter_words = self.reader.translate_parameter_words - used as u8;
        self.reader.word = next;
        param
    }
}

/// A writer of an IPC request or reply. The header word always describes
/// what has been written so far.
pub struct IPCWriter {
    command_id: u16,
    normal_parameter_count: u8,
    translate_parameter_size: u8,
    data: Vec<u8>,
    word: usize,
}

impl IPCWriter {
    pub closed spec fn spec_command_id(&self) -> u16 {
        self.command_id
    }

    pub closed spec fn spec_normal_count(&self) -> nat {
        self.normal_parameter_count as nat
    }

    pub closed spec fn spec_translate_size(&self) -> nat {
        self.translate_parameter_size as nat
    }

    pub closed spec fn spec_data(&self) -> Seq<u8> {
        self.data@
    }

    /// The index of the next word to be written.
    pub closed spec fn spec_word(&self) -> nat {
        self.word as nat
    }

    /// The header that the writer has recorded so far.
    pub open spec fn spec_header(&self) -> IPCHeaderCode {
        IPCHeaderCode {
            command_id: self.spec_command_id(),
            normal_parameter_count: self.spec_normal_count() as u8,
            translate_parameter_size: self.spec_translate_size() as u8,
        }
    }

    /// The writer's buffer holds its header in the first word.
    pub open spec fn wf(&self) -> bool {
        &&& self.spec_word() >= 1
        &&& 4 * self.spec_word() <= self.spec_data().len()
        &&& word_at(self.spec_data(), 0) == self.spec_header().spec_encode()
    }

    fn write_header(&mut self)
        requires
            old(self).spec_data().len() >= 4,
        ensures
            final(self).spec_data().len() == old(self).spec_data().len(),
            word_at(final(self).spec_data(), 0) == old(self).spec_header().spec_encode(),
            forall|i: int| 4 <= i < old(self).spec_data().len() ==> final(self).spec_data()[i] == old(self).spec_data()[i],
            final(self).command_id == old(self).command_id,
            final(self).normal_parameter_count == old(self).normal_parameter_count,
            final(self).translate_parameter_size == old(self).translate_parameter_size,
            final(self).word == old(self).word,
    {
        let header = IPCHeaderCode {
            command_id: self.command_id,
            normal_parameter_count: self.normal_parameter_count,
            translate_parameter_size: self.translate_parameter_size,
        };
        let w = header.to_word();
        write_word(&mut self.data, 0, w);
    }

    fn write(&mut self, value: u32)
        requires
            4 * (old(self).spec_word() + 1) <= old(self).spec_data().len(),
        ensures
            final(self).spec_data().len() == old(self).spec_data().len(),
            final(self).spec_word() == old(self).spec_word() + 1,
            word_at(final(self).spec_data(), old(self).spec_word() as int) == value,
            forall|i: int| 0 <= i < old(self).spec_data().len() && !(4 * old(self).spec_word() <= i < 4 * old(self).spec_word() + 4)
                ==> final(self).spec_data()[i] == old(self).spec_data()[i],
            final(self).command_id == old(self).command_id,
            final(self).normal_parameter_count == old(self).normal_parameter_count,
            final(self).translate_parameter_size == old(self).translate_parameter_size,
    {
        let len = self.data.len();
        write_word(&mut self.data, 4 * self.word, value);
        self.word = self.word + 1;
    }

    /// Starts a request with the given command: the header is the first word.
    pub fn new_request(command_id: u16, data: Vec<u8>) -> (r: IPCWriter)
        requires
            data@.len() >= 4,
        ensures
            r.wf(),
            r.spec_command_id() == command_id,
            r.spec_normal_count() == 0,
            r.spec_translate_size() == 0,
            r.spec_word() == 1,
            r.spec_data().len() == data@.len(),
            forall|i: int| 4 <= i < data@.len() ==> r.spec_data()[i] == data@[i],
    {
        let mut writer = IPCWriter { command_id, normal_parameter_count: 0, translate_parameter_size: 0, data, word: 0 };
        writer.write_header();
        writer.word = 1;
        writer
    }

    /// Starts a reply with the given command and result code.
    pub fn new_response(command_id: u16, result: u32, data: Vec<u8>) -> (r: IPCWriter)
        requires
            data@.len() >= 8,
        ensures
            r.wf(),
            r.spec_command_id() == command_id,
            r.spec_normal_count() == 0,
            r.spec_translate_size() == 0,
            r.spec_word() == 2,
            word_at(r.spec_data(), 1) == result,
            r.spec_data().len() == data@.len(),
            forall|i: int| 8 <= i < data@.len() ==> r.spec_data()[i] == data@[i],
    {
        let mut writer = IPCWriter::new_request(command_id, data);
        writer.write(result);
        writer
    }

    /// Appends a normal parameter; normal parameters come before all
    /// translate parameters.
    pub fn write_normal(&mut self, param: u32)
        requires
            old(self).wf(),
            old(self).spec_translate_size() == 0,
            old(self).spec_normal_count() < 255,
            4 * (old(self).spec_word() + 1) <= old(self).spec_data().len(),
        ensures
            final(self).wf(),
            final(self).spec_command_id() == old(self).spec_command_id(),
            final(self).spec_normal_count() == old(self).spec_normal_count() + 1,
            final(self).spec_translate_size() == 0,
            final(self).spec_word() == old(self).spec_word() + 1,
            final(self).spec_data().len() == old(self).spec_data().len(),
            word_at(final(self).spec_data(), old(self).spec_word() as int) == param,
            forall|j: int| 1 <= j < old(self).spec_word() ==> word_at(final(self).spec_data(), j) == word_at(old(self).spec_data(), j),
            forall|i: int| 4 * (old(self).spec_word() + 1) <= i < old(self).spec_data().len()
                ==> final(self).spec_data()[i] == old(self).spec_data()[i],
    {
        let ghost before = self.data@;
        self.normal_parameter_count = self.normal_parameter_count + 1;
        self.write(param);
        let ghost mid = self.data@;
        self.write_header();
        proof {
            assert forall|j: int| 1 <= j < old(self).spec_word() implies word_at(self.data@, j) == word_at(before, j) by {
                assert(self.data@[4 * j] == before[4 * j]);
                assert(self.data@[4 * j + 1] == before[4 * j + 1]);
                assert(self.data@[4 * j + 2] == before[4 * j + 2]);
                assert(self.data@[4 * j + 3] == before[4 * j + 3]);
            }
            let w = old(self).word as int;
            assert(self.data@[4 * w] == mid[4 * w]);
            assert(self.data@[4 * w + 1] == mid[4 * w + 1]);
            assert(self.data@[4 * w + 2] == mid[4 * w + 2]);
            assert(self.data@[4 * w + 3] == mid[4 * w + 3]);
        }
    }

    /// Appends a handle translate parameter: its descriptor, then the raw
    /// value of each handle.
    pub fn write_translate(&mut self, param: &IPCTranslateParameter)
        requires
            old(self).wf(),
            param is Handle,
            1 <= param@->handles.len() <= 64,
            old(self).spec_translate_size() + 1 + param@->handles.len() <= 255,
            4 * (old(self).spec_word() + 1 + param@->handles.len()) <= old(self).spec_data().len(),
        ensures
            final(self).wf(),
            final(self).spec_command_id() == old(self).spec_command_id(),
            final(self).spec_normal_count() == old(self).spec_normal_count(),
            final(self).spec_translate_size() == old(self).spec_translate_size() + 1 + param@->handles.len(),
            final(self).spec_word() == old(self).spec_word() + 1 + param@->handles.len(),
            final(self).spec_data().len() == old(self).spec_data().len(),
            forall|j: int| 1 <= j < old(self).spec_word() ==> word_at(final(self).spec_data(), j) == word_at(old(self).spec_data(), j),
            forall|j: int| 0 <= j <= param@->handles.len() ==> word_at(final(self).spec_data(), old(self).spec_word() + j)
                == spec_encode_handles(param@->moved, param@->calling_process, param@->handles)[j],
            forall|i: int| 4 * (old(self).spec_word() + 1 + param@->handles.len()) <= i < old(self).spec_data().len()
                ==> final(self).spec_data()[i] == old(self).spec_data()[i],
    {
        match param {
            IPCTranslateParameter::Handle { moved, calling_process, handles } => {
                let hs = handles.as_slice();
                let ghost enc = spec_encode_handles(*moved, *calling_process, hs@);
                let ghost start = self.word as int;
                let ghost before = self.data@;
                let n = hs.len();
                let m: u32 = if *moved { 16u32 } else { 0u32 };
                let c: u32 = if *calling_process { 32u32 } else { 0u32 };
                let descriptor = m | c | (((n - 1) as u32) << 26u32);
                assert(descriptor == enc[0]);
                self.translate_parameter_size = self.translate_parameter_size + 1;
                self.write(descriptor);
                let mut i: usize = 0;
                while i < n
                    invariant
                        n == hs@.len(),
                        1 <= n <= 64,
                        i <= n,
                        self.word == start + 1 + i,
                        self.data@.len() == before.len(),
                        4 * (start + 1 + n) <= before.len(),
                        start >= 1,
                        self.command_id == old(self).command_id,
                        self.normal_parameter_count == old(self).normal_parameter_count,
                        self.translate_parameter_size == old(self).translate_parameter_size + 1 + i,
                        old(self).translate_parameter_size + 1 + n <= 255,
                        enc == spec_encode_handles(*moved, *calling_process, hs@),
                        forall|j: int| 0 <= j <= i ==> word_at(self.data@, start + j) == enc[j],
                        forall|k: int| 4 <= k < 4 * start ==> self.data@[k] == before[k],
                        forall|k: int| 4 * (start + 1 + n) <= k < before.len() ==> self.data@[k] == before[k],
                    decreases n - i,
                {
                    let ghost prev = self.data@;
                    let raw = hs[i].raw();
                    assert(raw == enc[i + 1]);
                    self.write(raw);
                    self.translate_parameter_size = self.translate_parameter_size + 1;
                    i = i + 1;
                    proof {
                        assert forall|j: int| 0 <= j < i implies word_at(self.data@, start + j) == enc[j] by {
                            let b = 4 * (start + j);
                            assert(self.data@[b] == prev[b]);
                            assert(self.data@[b + 1] == prev[b + 1]);
                            assert(self.data@[b + 2] == prev[b + 2]);
                            assert(self.data@[b + 3] == prev[b + 3]);
                        }
                    }
                }
                let ghost mid = self.data@;
                self.write_header();
                proof {
                    assert forall|j: int| 1 <= j < start implies word_at(self.data@, j) == word_at(before, j) by {
                        assert(self.data@[4 * j] == before[4 * j]);
                        assert(self.data@[4 * j + 1] == before[4 * j + 1]);
                        assert(self.data@[4 * j + 2] == before[4 * j + 2]);
                        assert(self.data@[4 * j + 3] == before[4 * j + 3]);
                    }
                    assert forall|j: int| 0 <= j <= n implies word_at(self.data@, start + j) == enc[j] by {
                        let b = 4 * (start + j);
                        assert(self.data@[b] == mid[b]);
                        assert(self.data@[b + 1] == mid[b + 1]);
                        assert(self.data@[b + 2] == mid[b + 2]);
                        assert(self.data@[b + 3] == mid[b + 3]);
                    }
                }
            },
            _ => {},
        }
    }

    /// The message written so far.
    pub fn data(&self) -> (r: &Vec<u8>)
        ensures
            r@ == self.spec_data(),
    {
        &self.data
    }

    /// Ends writing and gives the message back.
    pub fn into_data(self) -> (r: Vec<u8>)
        ensures
            r@ == self.spec_data(),
    {
        self.data
    }
}

/// A reply being written by a service to the request it handled.
pub struct IPCResponse {
    writer: IPCWriter,
}

impl IPCResponse {
    pub closed spec fn spec_writer(&self) -> IPCWriter {
        self.writer
    }

    /// Starts the reply to a request with the given header: the reply keeps
    /// the command id and carries the result code.
    pub fn new(header: IPCHeaderCode, result: u32, data: Vec<u8>) -> (r: IPCResponse)
        requires
            data@.len() >= 8,
        ensures
            r.spec_writer().wf(),
            r.spec_writer().spec_command_id() == header.command_id,
            r.spec_writer().spec_normal_count() == 0,
            r.spec_writer().spec_translate_size() == 0,
            r.spec_writer().spec_word() == 2,
            word_at(r.spec_writer().spec_data(), 1) == result,
            r.spec_writer().spec_data().len() == data@.len(),
            forall|i: int| 8 <= i < data@.len() ==> r.spec_writer().spec_data()[i] == data@[i],
    {
        IPCResponse { writer: IPCWriter::new_response(header.command_id, result, data) }
    }

    pub fn write_normal(&mut self, param: u32)
        requires
            old(self).spec_writer().wf(),
            old(self).spec_writer().spec_translate_size() == 0,
            old(self).spec_writer().spec_normal_count() < 255,
            4 * (old(self).spec_writer().spec_word() + 1) <= old(self).spec_writer().spec_data().len(),
        ensures
            final(self).spec_writer().wf(),
            final(self).spec_writer().spec_command_id() == old(self).spec_writer().spec_command_id(),
            final(self).spec_writer().spec_normal_count() == old(self).spec_writer().spec_normal_count() + 1,
            final(self).spec_writer().spec_translate_size() == 0,
            final(self).spec_writer().spec_word() == old(self).spec_writer().spec_word() + 1,
            final(self).spec_writer().spec_data().len() == old(self).spec_writer().spec_data().len(),
            word_at(final(self).spec_writer().spec_data(), old(self).spec_writer().spec_word() as int) == param,
            forall|j: int| 1 <= j < old(self).spec_writer().spec_word() ==> word_at(final(self).spec_writer().spec_data(), j)
                == word_at(old(self).spec_writer().spec_data(), j),
            forall|i: int| 4 * (old(self).spec_writer().spec_word() + 1) <= i < old(self).spec_writer().spec_data().len()
                ==> final(self).spec_writer().spec_data()[i] == old(self).spec_writer().spec_data()[i],
    {
        self.writer.write_normal(param);
    }

    pub fn write_translate(&mut self, param: &IPCTranslateParameter)
        requires
            old(self).spec_writer().wf(),
            param is Handle,
            1 <= param@->handles.len() <= 64,
            old(self).spec_writer().spec_translate_size() + 1 + param@->handles.len() <= 255,
            4 * (old(self).spec_writer().spec_word() + 1 + param@->handles.len()) <= old(self).spec_writer().spec_data().len(),
        ensures
            final(self).spec_writer().wf(),
            final(self).spec_writer().spec_command_id() == old(self).spec_writer().spec_command_id(),
            final(self).spec_writer().spec_normal_count() == old(self).spec_writer().spec_normal_count(),
            final(self).spec_writer().spec_translate_size() == old(self).spec_writer().spec_translate_size() + 1
                + param@->handles.len(),
            final(self).spec_writer().spec_word() == old(self).spec_writer().spec_word() + 1 + param@->handles.len(),
            final(self).spec_writer().spec_data().len() == old(self).spec_writer().spec_data().len(),
            forall|j: int| 1 <= j < old(self).spec_writer().spec_word() ==> word_at(final(self).spec_writer().spec_data(), j)
                == word_at(old(self).spec_writer().spec_data(), j),
            forall|j: int| 0 <= j <= param@->handles.len() ==> word_at(final(self).spec_writer().spec_data(),
                old(self).spec_writer().spec_word() + j) == spec_encode_handles(
                param@->moved,
                param@->calling_process,
                param@->handles,
            )[j],
            forall|i: int| 4 * (old(self).spec_writer().spec_word() + 1 + param@->handles.len()) <= i
                < old(self).spec_writer().spec_data().len()
                ==> final(self).spec_writer().spec_data()[i] == old(self).spec_writer().spec_data()[i],
    {
        self.writer.write_translate(param);
    }

    pub fn into_data(self) -> (r: Vec<u8>)
        ensures
            r@ == self.spec_writer().spec_data(),
    {
        self.writer.into_data()
    }
}

/// The IPC data area of a request that a service is handling.
pub struct IPCContext {
    data: Vec<u8>,
}

impl IPCContext {
    pub closed spec fn spec_data(&self) -> Seq<u8> {
        self.data@
    }

    pub fn new(data: Vec<u8>) -> (r: IPCContext)
        ensures
            r.spec_data() == data@,
    {
        IPCContext { data }
    }

    /// The request's bytes.
    pub fn data(&self) -> (r: &Vec<u8>)
        ensures
            r@ == self.spec_data(),
    {
        &self.data
    }

    /// The header of the request.
    pub fn header(&self) -> (r: IPCHeaderCode)
        requires
            self.spec_data().len() >= 4,
        ensures
            r == IPCHeaderCode::spec_decode(word_at(self.spec_data(), 0)),
    {
        IPCHeaderCode::from_word(read_word(self.data.as_slice(), 0))
    }

    /// A reader of the request's parameters.
    pub fn request(&self) -> (r: IPCRequest<'_>)
        requires
            self.spec_data().len() >= 4,
        ensures
            r.spec_reader().spec_data() == self.spec_data(),
            r.spec_reader().spec_header() == IPCHeaderCode::spec_decode(word_at(self.spec_data(), 0)),
            r.spec_reader().spec_word() == 1,
            r.spec_reader().spec_normal_left() == r.spec_reader().spec_header().normal_parameter_count,
            r.spec_reader().spec_translate_left() == r.spec_reader().spec_header().translate_parameter_size,
    {
        IPCRequest::new(self.data.as_slice())
    }

    /// Replaces the request by the start of its reply with the given
    /// result code.
    pub fn response(self, result: u32) -> (r: IPCResponse)
        requires
            self.spec_data().len() >= 8,
        ensures
            r.spec_writer().wf(),
            r.spec_writer().spec_command_id() == IPCHeaderCode::spec_decode(word_at(self.spec_data(), 0)).command_id,
            r.spec_writer().spec_normal_count() == 0,
            r.spec_writer().spec_translate_size() == 0,
            r.spec_writer().spec_word() == 2,
            word_at(r.spec_writer().spec_data(), 1) == result,
            r.spec_writer().spec_data().len() == self.spec_data().len(),
            forall|i: int| 8 <= i < self.spec_data().len() ==> r.spec_writer().spec_data()[i] == self.spec_data()[i],
    {
        let header = self.header();
        IPCResponse::new(header, result, self.data)
    }
}

} // verus!
