//! Purpose headers: reading the two bytes that open every incoming stream, and
//! writing them at the start of every outgoing one.

use bevy::platform::collections::HashMap;
use bevy::platform::hash::FixedHasher;
use vstd::prelude::*;
use vstd::std_specs::convert::IntoSpec;
use crate::networking::u16_reader::{
    accepted, be_bytes, lemma_be_bytes_of_value, lemma_be_value_of_bytes, U16Reader,
};
use crate::networking::frames::joined;
use crate::networking::{Dir, ReadStep, StreamId, StreamRead, StreamReadError};

verus! {

/// The hash map of `bevy::platform::collections`, taken as it is: nothing of
/// its inside is known here.
#[verifier::external_type_specification]
#[verifier::external_body]
#[verifier::reject_recursive_types(K)]
#[verifier::reject_recursive_types(V)]
#[verifier::reject_recursive_types(S)]
pub struct ExHashMap<K, V, S>(HashMap<K, V, S>);

/// The hasher that `bevy::platform::collections::HashMap` uses unless told
/// otherwise, taken as it is.
#[verifier::external_type_specification]
#[verifier::external_body]
pub struct ExFixedHasher(FixedHasher);

/// How far the header of one incoming stream has been read.
#[allow(inconsistent_fields)]
pub enum RecvStreamHeaderState {
    Reading { dir: Dir, buffer: U16Reader },
    HeaderReceived { dir: Dir, header: u16 },
}

/// The entries of a table of incoming streams: which keys it holds, and what
/// it holds under each.
pub uninterp spec fn table_contents(table: HashMap<u64, RecvStreamHeaderState>) -> Map<
    u64,
    RecvStreamHeaderState,
>;

/// `HashMap::default` of `bevy::platform::collections`: a map without entries.
#[verifier::external_body]
fn table_new() -> (table: HashMap<u64, RecvStreamHeaderState>)
    ensures
        table_contents(table) == (Map::<u64, RecvStreamHeaderState>::empty()),
{
    HashMap::default()
}

/// `HashMap::insert`: afterwards the map holds `value` under `key` and is
/// otherwise as it was. Returns what `key` held before, if anything.
#[verifier::external_body]
fn table_insert(
    table: &mut HashMap<u64, RecvStreamHeaderState>,
    key: u64,
    value: RecvStreamHeaderState,
) -> (previous: Option<RecvStreamHeaderState>)
    ensures
        table_contents(*final(table)) == table_contents(*old(table)).insert(key, value),
        previous == if table_contents(*old(table)).contains_key(key) {
            Some(table_contents(*old(table))[key])
        } else {
            None
        },
{
    table.insert(key, value)
}

/// `HashMap::remove`: afterwards the map holds nothing under `key` and is
/// otherwise as it was. Returns what `key` held, if anything.
#[verifier::external_body]
fn table_remove(table: &mut HashMap<u64, RecvStreamHeaderState>, key: u64) -> (removed: Option<
    RecvStreamHeaderState,
>)
    ensures
        table_contents(*final(table)) == table_contents(*old(table)).remove(key),
        removed == if table_contents(*old(table)).contains_key(key) {
            Some(table_contents(*old(table))[key])
        } else {
            None
        },
{
    table.remove(&key)
}

/// `HashMap::get`: what the map holds under `key`, if anything.
#[verifier::external_body]
fn table_get(table: &HashMap<u64, RecvStreamHeaderState>, key: u64) -> (found: Option<
    &RecvStreamHeaderState,
>)
    ensures
        found == if table_contents(*table).contains_key(key) {
            Some(&table_contents(*table)[key])
        } else {
            None
        },
{
    table.get(&key)
}

/// `HashMap::keys`, collected: every key of the map once, in no stated order.
#[verifier::external_body]
fn table_keys(table: &HashMap<u64, RecvStreamHeaderState>) -> (keys: Vec<u64>)
    ensures
        keys@.no_duplicates(),
        keys@.to_set() == table_contents(*table).dom(),
{
    table.keys().copied().collect()
}

/// The header of one incoming stream as far as it has arrived: at most two
/// bytes. With both bytes here the stream is classified.
pub struct HeaderProgress {
    pub dir: Dir,
    pub bytes: Seq<u8>,
}

impl HeaderProgress {
    /// Both header bytes are here, and they spell `tag`.
    pub open spec fn classified_as(self, tag: u16) -> bool {
        self.bytes == be_bytes(tag)
    }
}

impl RecvStreamHeaderState {
    /// A stream that is still being read lacks at least one byte.
    pub closed spec fn wf(&self) -> bool {
        match self {
            RecvStreamHeaderState::Reading { buffer, .. } => buffer@.len() < 2,
            RecvStreamHeaderState::HeaderReceived { .. } => true,
        }
    }

    /// What has arrived of the header.
    pub closed spec fn progress(&self) -> HeaderProgress {
        match self {
            RecvStreamHeaderState::Reading { dir, buffer } => HeaderProgress {
                dir: *dir,
                bytes: buffer@,
            },
            RecvStreamHeaderState::HeaderReceived { dir, header } => HeaderProgress {
                dir: *dir,
                bytes: be_bytes(*header),
            },
        }
    }
}

/// The incoming streams of one connection that no one has claimed yet, each
/// with its header as far as it has arrived.
#[verifier::ext_equal]
pub struct RecvStreamHeadersView {
    pub streams: Map<StreamId, HeaderProgress>,
}

impl RecvStreamHeadersView {
    /// `stream` is here and its header is still incomplete.
    pub open spec fn reading(self, stream: StreamId) -> bool {
        self.streams.contains_key(stream) && self.streams[stream].bytes.len() < 2
    }

    /// `stream` is here, classified, and its header spells `tag`.
    pub open spec fn claimable(self, stream: StreamId, tag: u16) -> bool {
        self.streams.contains_key(stream) && self.streams[stream].classified_as(tag)
    }

    /// What is to be done with `stream` once `read` was taken in.
    pub open spec fn step(self, stream: StreamId, read: StreamRead) -> ReadStep {
        if !self.reading(stream) {
            ReadStep::Untracked
        } else {
            match read {
                Ok(Some(chunk)) => if self.streams[stream].bytes.len() + chunk@.len() >= 2 {
                    ReadStep::Classified
                } else {
                    ReadStep::Continue
                },
                Ok(None) => ReadStep::Finished,
                Err(StreamReadError::Blocked) => ReadStep::Blocked,
                Err(StreamReadError::Reset(code)) => ReadStep::Reset(code),
                Err(StreamReadError::Other) => ReadStep::Failed,
            }
        }
    }

    /// The streams after `bytes` of `stream` were taken in: they go to the
    /// stream's header until it has two bytes, and none beyond that. A stream
    /// that is classified, or that is not here, takes nothing.
    pub open spec fn fed(self, stream: StreamId, bytes: Seq<u8>) -> Self {
        if !self.reading(stream) {
            self
        } else {
            let held = self.streams[stream];
            RecvStreamHeadersView {
                streams: self.streams.insert(
                    stream,
                    HeaderProgress { dir: held.dir, bytes: held.bytes + accepted(held.bytes, bytes) },
                ),
            }
        }
    }

    /// The streams after the chunks of `stream` were taken in one by one.
    pub open spec fn fed_all(self, stream: StreamId, chunks: Seq<Seq<u8>>) -> Self
        decreases chunks.len(),
    {
        if chunks.len() == 0 {
            self
        } else {
            self.fed(stream, chunks.first()).fed_all(stream, chunks.drop_first())
        }
    }

    /// The streams after `stream` was let go.
    pub open spec fn dropping(self, stream: StreamId) -> Self {
        RecvStreamHeadersView { streams: self.streams.remove(stream) }
    }

    /// The streams after `read` of `stream` was taken in. Bytes are fed to
    /// the stream's header; the end of the stream and a reset let the stream
    /// go; anything else changes nothing, and no other stream is touched.
    pub open spec fn received(self, stream: StreamId, read: StreamRead) -> Self {
        if !self.reading(stream) {
            self
        } else {
            match read {
                Ok(Some(chunk)) => self.fed(stream, chunk@),
                Ok(None) => self.dropping(stream),
                Err(StreamReadError::Reset(_)) => self.dropping(stream),
                Err(_) => self,
            }
        }
    }
}

/// The first two of `bytes`, or all of them where there are fewer.
pub open spec fn first_two(bytes: Seq<u8>) -> Seq<u8> {
    if bytes.len() <= 2 {
        bytes
    } else {
        bytes.take(2)
    }
}

/// However the first bytes of a stream are cut into chunks, its header is
/// made of the first two of them and of nothing else.
pub proof fn lemma_header_in_chunks(
    headers: RecvStreamHeadersView,
    stream: StreamId,
    chunks: Seq<Seq<u8>>,
)
    requires
        headers.reading(stream),
    ensures
        headers.fed_all(stream, chunks).streams == headers.streams.insert(
            stream,
            HeaderProgress {
                dir: headers.streams[stream].dir,
                bytes: first_two(headers.streams[stream].bytes + joined(chunks)),
            },
        ),
    decreases chunks.len(),
{
    let held = headers.streams[stream];
    if chunks.len() == 0 {
        assert(held.bytes + joined(chunks) =~= held.bytes);
        assert(headers.streams =~= headers.streams.insert(stream, held));
    } else {
        let once = headers.fed(stream, chunks.first());
        let later = chunks.drop_first();
        let all = held.bytes + joined(chunks);
        assert(all =~= (held.bytes + chunks.first()) + joined(later));
        if once.reading(stream) {
            lemma_header_in_chunks(once, stream, later);
            assert(once.streams[stream].bytes =~= held.bytes + chunks.first());
            assert(once.streams.insert(
                stream,
                HeaderProgress { dir: held.dir, bytes: first_two(all) },
            ) =~= headers.streams.insert(
                stream,
                HeaderProgress { dir: held.dir, bytes: first_two(all) },
            ));
        } else {
            lemma_fed_all_classified(once, stream, later);
            assert(once.streams[stream].bytes =~= first_two(all));
        }
    }
}

/// A header that is complete takes no more bytes.
pub proof fn lemma_fed_all_classified(
    headers: RecvStreamHeadersView,
    stream: StreamId,
    chunks: Seq<Seq<u8>>,
)
    requires
        !headers.reading(stream),
    ensures
        headers.fed_all(stream, chunks) == headers,
    decreases chunks.len(),
{
    if chunks.len() > 0 {
        lemma_fed_all_classified(headers, stream, chunks.drop_first());
    }
}

/// A stream that ends or is reset before its header is complete is let go,
/// and the caller is told so, with the reset's code. It is never classified,
/// and no other stream is touched.
pub proof fn lemma_headerless_stream_is_let_go(
    headers: RecvStreamHeadersView,
    stream: StreamId,
    code: u64,
    other: StreamId,
)
    requires
        headers.reading(stream),
        other != stream,
    ensures
        headers.step(stream, Err(StreamReadError::Reset(code))) == ReadStep::Reset(code),
        headers.step(stream, Ok(None)) == ReadStep::Finished,
        !headers.received(stream, Err(StreamReadError::Reset(code))).streams.contains_key(stream),
        !headers.received(stream, Ok(None)).streams.contains_key(stream),
        headers.received(stream, Err(StreamReadError::Reset(code))) == headers.received(
            stream,
            Ok(None),
        ),
        headers.received(stream, Ok(None)).streams.contains_key(other)
            == headers.streams.contains_key(other),
        headers.streams.contains_key(other) ==> headers.received(stream, Ok(None)).streams[other]
            == headers.streams[other],
{
}

/// Reads the header of every stream that the peer opens, and keeps each
/// classified stream until it is claimed by its purpose.
pub struct RecvStreamHeaders {
    buffers: HashMap<u64, RecvStreamHeaderState>,
}

impl View for RecvStreamHeaders {
    type V = RecvStreamHeadersView;

    closed spec fn view(&self) -> RecvStreamHeadersView {
        RecvStreamHeadersView {
            streams: Map::new(
                |stream: StreamId| table_contents(self.buffers).contains_key(stream.0),
                |stream: StreamId| table_contents(self.buffers)[stream.0].progress(),
            ),
        }
    }
}

impl Default for RecvStreamHeaders {
    fn default() -> (headers: Self)
        ensures
            headers@.streams == Map::<StreamId, HeaderProgress>::empty(),
    {
        RecvStreamHeaders::new()
    }
}

impl RecvStreamHeaders {
    #[verifier::type_invariant]
    spec fn well_formed(&self) -> bool {
        &&& table_contents(self.buffers).dom().finite()
        &&& forall|key: u64|
            table_contents(self.buffers).contains_key(key) ==> (#[trigger] table_contents(
                self.buffers,
            )[key]).wf()
    }

    /// No stream yet.
    pub fn new() -> (headers: Self)
        ensures
            headers@.streams == Map::<StreamId, HeaderProgress>::empty(),
    {
        let headers = RecvStreamHeaders { buffers: table_new() };
        proof {
            assert(headers@.streams =~= Map::<StreamId, HeaderProgress>::empty());
        }
        headers
    }

    /// Takes note of a stream that the peer has opened: its header is read
    /// from now on.
    pub fn accept_stream(&mut self, stream_id: StreamId, dir: Dir)
        ensures
            final(self)@.streams == old(self)@.streams.insert(
                stream_id,
                HeaderProgress { dir, bytes: Seq::empty() },
            ),
    {
        proof {
            use_type_invariant(&*self);
        }
        let mut taken = RecvStreamHeaders::new();
        core::mem::swap(self, &mut taken);
        let RecvStreamHeaders { mut buffers } = taken;
        table_insert(
            &mut buffers,
            stream_id.0,
            RecvStreamHeaderState::Reading { dir, buffer: U16Reader::new() },
        );
        *self = RecvStreamHeaders { buffers };
        proof {
            assert(self@.streams =~= old(self)@.streams.insert(
                stream_id,
                HeaderProgress { dir, bytes: Seq::empty() },
            ));
        }
    }

    /// How many bytes to ask the transport for when `stream_id` is read next:
    /// what its header lacks, or nothing for a stream that is not read here.
    pub fn bytes_needed(&self, stream_id: StreamId) -> (needed: usize)
        ensures
            needed == if self@.reading(stream_id) {
                2 - self@.streams[stream_id].bytes.len()
            } else {
                0
            },
    {
        proof {
            use_type_invariant(self);
        }
        match table_get(&self.buffers, stream_id.0) {
            Some(RecvStreamHeaderState::Reading { buffer, .. }) => buffer.bytes_needed(),
            _ => 0,
        }
    }

    /// Takes in what one read of `stream_id` returned and says what to do with
    /// the stream next.
    pub fn receive(&mut self, stream_id: StreamId, read: StreamRead) -> (step: ReadStep)
        ensures
            step == old(self)@.step(stream_id, read),
            final(self)@ == old(self)@.received(stream_id, read),
    {
        proof {
            use_type_invariant(&*self);
        }
        let mut taken = RecvStreamHeaders::new();
        core::mem::swap(self, &mut taken);
        let RecvStreamHeaders { mut buffers } = taken;
        let step = match table_remove(&mut buffers, stream_id.0) {
            None => ReadStep::Untracked,
            Some(RecvStreamHeaderState::HeaderReceived { dir, header }) => {
                table_insert(
                    &mut buffers,
                    stream_id.0,
                    RecvStreamHeaderState::HeaderReceived { dir, header },
                );
                ReadStep::Untracked
            },
            Some(RecvStreamHeaderState::Reading { dir, mut buffer }) => match read {
                Ok(Some(chunk)) => {
                    buffer.write(chunk.as_slice());
                    match buffer.finish() {
                        Some(header) => {
                            proof {
                                lemma_be_bytes_of_value(buffer@[0], buffer@[1]);
                                assert(be_bytes(header) =~= buffer@);
                            }
                            table_insert(
                                &mut buffers,
                                stream_id.0,
                                RecvStreamHeaderState::HeaderReceived { dir, header },
                            );
                            ReadStep::Classified
                        },
                        None => {
                            table_insert(
                                &mut buffers,
                                stream_id.0,
                                RecvStreamHeaderState::Reading { dir, buffer },
                            );
                            ReadStep::Continue
                        },
                    }
                },
                Ok(None) => ReadStep::Finished,
                Err(StreamReadError::Blocked) => {
                    table_insert(
                        &mut buffers,
                        stream_id.0,
                        RecvStreamHeaderState::Reading { dir, buffer },
                    );
                    ReadStep::Blocked
                },
                Err(StreamReadError::Reset(code)) => ReadStep::Reset(code),
                Err(StreamReadError::Other) => {
                    table_insert(
                        &mut buffers,
                        stream_id.0,
                        RecvStreamHeaderState::Reading { dir, buffer },
                    );
                    ReadStep::Failed
                },
            },
        };
        *self = RecvStreamHeaders { buffers };
        proof {
            assert(self@.streams =~= old(self)@.received(stream_id, read).streams);
        }
        step
    }

    /// The streams whose header is still incomplete, each once, in no
    /// particular order: the ones to read on this pass.
    pub fn reading_streams(&self) -> (streams: Vec<StreamId>)
        ensures
            streams@.no_duplicates(),
            forall|stream: StreamId| streams@.contains(stream) <==> self@.reading(stream),
    {
        proof {
            use_type_invariant(self);
        }
        let keys = table_keys(&self.buffers);
        let mut streams: Vec<StreamId> = Vec::new();
        let mut at: usize = 0;
        while at < keys.len()
            invariant
                at <= keys@.len(),
                keys@.no_duplicates(),
                keys@.to_set() == table_contents(self.buffers).dom(),
                forall|key: u64|
                    table_contents(self.buffers).contains_key(key) ==> (#[trigger] table_contents(
                        self.buffers,
                    )[key]).wf(),
                streams@.no_duplicates(),
                forall|stream: StreamId|
                    streams@.contains(stream) <==> self@.reading(stream) && keys@.take(
                        at as int,
                    ).contains(stream.0),
            decreases keys@.len() - at,
        {
            let key: u64 = keys[at];
            let ghost before = streams@;
            let ghost prev = keys@.take(at as int);
            let ghost next = keys@.take(at + 1);
            proof {
                assert(next =~= prev.push(key));
                assert(keys@.to_set().contains(key));
                assert(!prev.contains(key));
                assert forall|other: u64| next.contains(other) <==> prev.contains(other) || other
                    == key by {
                    if prev.contains(other) {
                        let j = choose|j: int| 0 <= j < prev.len() && prev[j] == other;
                        assert(next[j] == other);
                    }
                    if other == key {
                        assert(next[at as int] == key);
                    }
                    if next.contains(other) {
                        let j = choose|j: int| 0 <= j < next.len() && next[j] == other;
                        assert(j < at ==> prev[j] == other);
                    }
                }
            }
            let reading: bool = match table_get(&self.buffers, key) {
                Some(RecvStreamHeaderState::Reading { .. }) => true,
                _ => false,
            };
            proof {
                assert(self@.streams.contains_key(StreamId(key)));
                assert(reading == self@.reading(StreamId(key)));
            }
            if reading {
                streams.push(StreamId(key));
                proof {
                    assert(!before.contains(StreamId(key)));
                    assert forall|stream: StreamId|
                        streams@.contains(stream) <==> before.contains(stream) || stream
                            == StreamId(key) by {
                        if before.contains(stream) {
                            let i = choose|i: int| 0 <= i < before.len() && before[i] == stream;
                            assert(streams@[i] == stream);
                        }
                        if stream == StreamId(key) {
                            assert(streams@[before.len() as int] == stream);
                        }
                        if streams@.contains(stream) {
                            let i = choose|i: int|
                                0 <= i < streams@.len() && streams@[i] == stream;
                            assert(i < before.len() ==> before[i] == stream);
                        }
                    }
                }
            }
            proof {
                assert forall|stream: StreamId|
                    streams@.contains(stream) <==> self@.reading(stream) && next.contains(
                        stream.0,
                    ) by {
                    if stream.0 == key {
                        assert(stream == StreamId(key));
                    }
                }
            }
            at = at + 1;
        }
        proof {
            assert(keys@.take(at as int) =~= keys@);
            assert forall|stream: StreamId| self@.reading(stream) implies keys@.contains(
                stream.0,
            ) by {
                assert(keys@.to_set().contains(stream.0));
            }
        }
        streams
    }

    /// Claims one classified stream whose header is `header`, if there is
    /// one: the stream leaves this table and is the caller's from then on.
    /// With several such streams any one of them may be the one returned.
    pub fn take_stream<H: Into<u16>>(&mut self, header: H) -> (taken: Option<(StreamId, Dir)>)
        ensures
            old(self)@.streams.dom().finite(),
            match taken {
                Some((stream, dir)) => {
                    &&& old(self)@.streams.contains_key(stream)
                    &&& old(self)@.streams[stream].bytes.len() == 2
                    &&& old(self)@.streams[stream].dir == dir
                    &&& final(self)@.streams == old(self)@.streams.remove(stream)
                },
                None => final(self)@ == old(self)@,
            },
            H::obeys_into_spec() ==> match taken {
                Some((stream, dir)) => old(self)@.claimable(stream, header.into_spec()),
                None => forall|stream: StreamId|
                    !old(self)@.claimable(stream, header.into_spec()),
            },
    {
        proof {
            use_type_invariant(&*self);
            self.lemma_finite();
        }
        let target: u16 = header.into();
        let mut taken = RecvStreamHeaders::new();
        core::mem::swap(self, &mut taken);
        let RecvStreamHeaders { mut buffers } = taken;
        let keys = table_keys(&buffers);
        let mut found: Option<(StreamId, Dir)> = None;
        let mut at: usize = 0;
        while at < keys.len() && found.is_none()
            invariant
                at <= keys@.len(),
                keys@.to_set() == table_contents(buffers).dom(),
                forall|key: u64|
                    table_contents(buffers).contains_key(key) ==> (#[trigger] table_contents(
                        buffers,
                    )[key]).wf(),
                forall|i: int|
                    0 <= i < at && found.is_none() ==> !(#[trigger] table_contents(
                        buffers,
                    )[keys@[i]]).progress().classified_as(target),
                match found {
                    Some((stream, dir)) => {
                        &&& table_contents(buffers).contains_key(stream.0)
                        &&& table_contents(buffers)[stream.0].progress().classified_as(target)
                        &&& table_contents(buffers)[stream.0].progress().dir == dir
                    },
                    None => true,
                },
            decreases keys@.len() - at + if found.is_none() { 1int } else { 0int },
        {
            let key: u64 = keys[at];
            proof {
                assert(keys@.to_set().contains(key));
            }
            match table_get(&buffers, key) {
                Some(RecvStreamHeaderState::HeaderReceived { dir, header }) => {
                    if *header == target {
                        found = Some((StreamId(key), *dir));
                    } else {
                        proof {
                            lemma_be_value_of_bytes(*header);
                            lemma_be_value_of_bytes(target);
                        }
                    }
                },
                _ => {},
            }
            at = at + 1;
        }
        proof {
            lemma_be_value_of_bytes(target);
        }
        match found {
            Some((stream, dir)) => {
                table_remove(&mut buffers, stream.0);
            },
            None => {
                proof {
                    assert forall|stream: StreamId|
                        table_contents(buffers).contains_key(stream.0) implies !table_contents(
                        buffers,
                    )[stream.0].progress().classified_as(target) by {
                        assert(keys@.to_set().contains(stream.0));
                        let i = choose|i: int| 0 <= i < keys@.len() && keys@[i] == stream.0;
                        assert(!table_contents(buffers)[keys@[i]].progress().classified_as(
                            target,
                        ));
                    }
                }
            },
        }
        *self = RecvStreamHeaders { buffers };
        proof {
            match found {
                Some((stream, dir)) => {
                    assert(self@.streams =~= old(self)@.streams.remove(stream));
                },
                None => {
                    assert(self@.streams =~= old(self)@.streams);
                },
            }
        }
        found
    }

    /// A table never holds more than finitely many streams.
    proof fn lemma_finite(&self)
        requires
            table_contents(self.buffers).dom().finite(),
        ensures
            self@.streams.dom().finite(),
    {
        let keys = table_contents(self.buffers).dom();
        keys.lemma_map_finite(|key: u64| StreamId(key));
        assert(self@.streams.dom() =~= keys.map(|key: u64| StreamId(key))) by {
            assert forall|stream: StreamId| self@.streams.dom().contains(stream) implies keys.map(
                |key: u64| StreamId(key),
            ).contains(stream) by {
                assert(keys.contains(stream.0) && stream == StreamId(stream.0));
            }
        }
    }
}

/// An outgoing stream that has to carry its purpose header before anything
/// else.
pub struct HeaderedStreamState {
    stream_id: StreamId,
    header_buffer: Option<Vec<u8>>,
}

impl HeaderedStreamState {
    /// The stream that this is the state of.
    pub closed spec fn id(&self) -> StreamId {
        self.stream_id
    }

    /// The header bytes that the transport has not taken yet, in order.
    pub closed spec fn remaining(&self) -> Seq<u8> {
        match self.header_buffer {
            Some(buffer) => buffer@,
            None => Seq::empty(),
        }
    }

    /// A stream of which nothing has been written: both header bytes remain.
    pub fn new<H: Into<u16>>(stream_id: StreamId, header: H) -> (state: Self)
        ensures
            state.id() == stream_id,
            state.remaining().len() == 2,
            H::obeys_into_spec() ==> state.remaining() == be_bytes(header.into_spec()),
    {
        let tag: u16 = header.into();
        let mut buffer: Vec<u8> = Vec::new();
        buffer.push((tag / 256) as u8);
        buffer.push((tag % 256) as u8);
        proof {
            assert(buffer@ =~= be_bytes(tag));
        }
        HeaderedStreamState { stream_id, header_buffer: Some(buffer) }
    }

    /// Gets the stream id.
    pub fn stream_id(&self) -> (stream_id: StreamId)
        ensures
            stream_id == self.id(),
    {
        self.stream_id
    }

    /// The header bytes to hand to the transport before any payload, or
    /// `None` once the transport has taken them all.
    pub fn header(&self) -> (header: Option<&[u8]>)
        ensures
            match header {
                Some(bytes) => bytes@ == self.remaining() && bytes@.len() > 0,
                None => self.remaining().len() == 0,
            },
    {
        match &self.header_buffer {
            Some(buffer) => if buffer.len() > 0 {
                Some(buffer.as_slice())
            } else {
                None
            },
            None => None,
        }
    }

    /// Records that the transport took the first `written` of the remaining
    /// header bytes; it cannot have taken more than remained, and a larger
    /// count stands for all of them. Returns whether the header is through:
    /// payload may be written only then, and until then every write counts as
    /// zero bytes of payload.
    pub fn write(&mut self, written: usize) -> (through: bool)
        ensures
            final(self).id() == old(self).id(),
            final(self).remaining() == rest_after(old(self).remaining(), written as int),
            through == (final(self).remaining().len() == 0),
    {
        match self.header_buffer.take() {
            Some(mut buffer) => {
                let taken: usize = if written < buffer.len() {
                    written
                } else {
                    buffer.len()
                };
                let rest = buffer.split_off(taken);
                if rest.len() == 0 {
                    proof {
                        assert(rest@ =~= Seq::<u8>::empty());
                    }
                    true
                } else {
                    self.header_buffer = Some(rest);
                    false
                }
            },
            None => true,
        }
    }
}

/// What is left of `offered` once the transport took its first `written`
/// bytes, or all of it where `written` is more than there was.
pub open spec fn rest_after(offered: Seq<u8>, written: int) -> Seq<u8> {
    if 0 <= written < offered.len() {
        offered.skip(written)
    } else {
        Seq::empty()
    }
}

} // verus!
