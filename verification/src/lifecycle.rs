//! The library lifecycle manager.
//!
//! A library arrives as source text whose first line is a header naming the
//! backend engine and the library (`#!<engine> name=<name>`). Loading it is
//! a transaction: the backend's load entry point registers functions, stream
//! consumers and key-notification consumers one by one against the open
//! transaction; a same-named library already active is first detached as the
//! rollback target, and its live registrations are upgraded in place with
//! every prior value recorded. Any failure - a rejected registration, or a
//! library that ends up declaring nothing - undoes every recorded mutation
//! in reverse and restores the detached library unchanged, cursors and all.
//! Success discards the old library and publishes the new one.
//!
//! The embedding program drives the transaction: it compiles the source with
//! the named backend and forwards the backend's registration calls, then
//! commits or aborts. Everything the transaction does to engine state is
//! decided and verified here.

use vstd::prelude::*;
use vstd::string::StringSliceAdditionalSpecFns;

use crate::api::{GearsApiError, RegisteredKeys};
use crate::keys_notifications::{notif_wf, KeysNotificationsCtx, KeysNotificationsView, NotificationConsumerView};
use crate::stream_reader::{reader_wf, StreamConsumerView, StreamReaderCtx};

verus! {

/// First position of byte `x` in `b`, at or after `i`.
pub open spec fn find_from(b: Seq<u8>, x: u8, i: int) -> Option<int>
    decreases b.len() - i,
{
    if i < 0 || i >= b.len() {
        None
    } else if b[i] == x {
        Some(i)
    } else {
        find_from(b, x, i + 1)
    }
}

fn find_byte(b: &[u8], x: u8, from: usize) -> (r: Option<usize>)
    ensures
        match r {
            Some(j) => from <= j < b@.len() && find_from(b@, x, from as int) == Some(j as int),
            None => find_from(b@, x, from as int) is None,
        },
{
    let mut j = from;
    while j < b.len()
        invariant
            from <= j,
            find_from(b@, x, from as int) == find_from(b@, x, j as int),
        decreases b@.len() - j,
    {
        if b[j] == x {
            return Some(j);
        }
        j = j + 1;
    }
    None
}

/// Lower-case folding of one ASCII byte.
pub open spec fn ascii_lower(x: u8) -> u8 {
    if 0x41 <= x <= 0x5A {
        (x + 0x20) as u8
    } else {
        x
    }
}

fn ascii_lower_exec(x: u8) -> (r: u8)
    ensures
        r == ascii_lower(x),
{
    if 0x41 <= x && x <= 0x5A {
        x + 0x20
    } else {
        x
    }
}

/// The header line: everything before the first line feed.
pub open spec fn header_line(b: Seq<u8>) -> Seq<u8> {
    match find_from(b, 10u8, 0) {
        Some(j) => b.take(j),
        None => b,
    }
}

/// The property key `name`, case-insensitively.
pub open spec fn is_name_prop(t: Seq<u8>) -> bool {
    t.len() == 4 && ascii_lower(t[0]) == 110 && ascii_lower(t[1]) == 97 && ascii_lower(t[2]) == 109
        && ascii_lower(t[3]) == 101
}

/// Why a header was rejected.
pub ghost enum HeaderError {
    /// The first line does not start with `#!`.
    NoShebang,
    /// Nothing follows the engine token.
    MissingName,
    /// The property after the engine carries no `=` value.
    MissingPropertyValue,
    /// The property after the engine is not `name`.
    UnknownProperty,
}

/// Parsing the mandatory header `#!<engine> name=<library-name>` out of the
/// first line of the source: the engine is the token after `#!`, and the
/// next token must bind the `name` property (its value runs to the next `=`
/// or the token's end).
pub open spec fn parse_header(b: Seq<u8>) -> Result<(Seq<u8>, Seq<u8>), HeaderError> {
    let line = header_line(b);
    if !(line.len() >= 2 && line[0] == 35 && line[1] == 33) {
        Err(HeaderError::NoShebang)
    } else {
        let rest = line.skip(2);
        match find_from(rest, 32u8, 0) {
            None => Err(HeaderError::MissingName),
            Some(sp) => {
                let engine = rest.take(sp);
                let tok = match find_from(rest, 32u8, sp + 1) {
                    Some(sp2) => rest.subrange(sp + 1, sp2),
                    None => rest.skip(sp + 1),
                };
                match find_from(tok, 61u8, 0) {
                    None => Err(HeaderError::MissingPropertyValue),
                    Some(eq) => {
                        let prop_name = tok.take(eq);
                        let prop_val = match find_from(tok, 61u8, eq + 1) {
                            Some(eq2) => tok.subrange(eq + 1, eq2),
                            None => tok.skip(eq + 1),
                        };
                        if is_name_prop(prop_name) {
                            Ok((engine, prop_val))
                        } else {
                            Err(HeaderError::UnknownProperty)
                        }
                    },
                }
            },
        }
    }
}

/// The message text reported for each header rejection.
pub open spec fn header_error_msg(e: HeaderError) -> Seq<char> {
    match e {
        HeaderError::NoShebang => "could not find #! syntax"@,
        HeaderError::MissingName => "Failed find 'name' property"@,
        HeaderError::MissingPropertyValue => "could not extract property value"@,
        HeaderError::UnknownProperty => "unknown property"@,
    }
}

/// What identifies a library: its name, the backend engine that compiles it,
/// and the full source text it was loaded from.
#[derive(Debug)]
pub struct GearsLibraryMetaData {
    pub name: Vec<u8>,
    pub engine: Vec<u8>,
    pub code: Vec<u8>,
}

/// Mathematical state of the metadata.
#[verifier::ext_equal]
pub ghost struct MetaDataView {
    pub name: Seq<u8>,
    pub engine: Seq<u8>,
    pub code: Seq<u8>,
}

impl View for GearsLibraryMetaData {
    type V = MetaDataView;

    open spec fn view(&self) -> MetaDataView {
        MetaDataView { name: self.name@, engine: self.engine@, code: self.code@ }
    }
}

/// Extract the mandatory header from library source: the declared engine and
/// library name, plus the source itself. Rejects exactly the sources whose
/// first line [`parse_header`] rejects, with the matching message.
pub fn library_extract_metadata(code: &str) -> (r: Result<GearsLibraryMetaData, GearsApiError>)
    ensures
        match r {
            Ok(m) => parse_header(code.spec_bytes()) == Ok::<(Seq<u8>, Seq<u8>), HeaderError>(
                (m@.engine, m@.name),
            ) && m@.code == code.spec_bytes(),
            Err(e) => parse_header(code.spec_bytes()) is Err && (match e {
                GearsApiError::Msg(s) => s@ == header_error_msg(
                    parse_header(code.spec_bytes())->Err_0,
                ),
            }),
        },
{
    let b = code.as_bytes();
    let line: &[u8] = match find_byte(b, 10, 0) {
        Some(j) => &b[0..j],
        None => b,
    };
    proof {
        assert(line@ == header_line(code.spec_bytes()));
    }
    if !(line.len() >= 2 && line[0] == 35 && line[1] == 33) {
        return Err(GearsApiError::Msg("could not find #! syntax".to_owned()));
    }
    let rest: &[u8] = &line[2..line.len()];
    proof {
        assert(rest@ =~= line@.skip(2));
    }
    let sp = match find_byte(rest, 32, 0) {
        Some(sp) => sp,
        None => {
            return Err(GearsApiError::Msg("Failed find 'name' property".to_owned()));
        },
    };
    let engine: &[u8] = &rest[0..sp];
    proof {
        assert(engine@ =~= rest@.take(sp as int));
    }
    let tok: &[u8] = match find_byte(rest, 32, sp + 1) {
        Some(sp2) => &rest[sp + 1..sp2],
        None => &rest[sp + 1..rest.len()],
    };
    proof {
        assert(tok@ =~= (match find_from(rest@, 32u8, sp as int + 1) {
            Some(sp2) => rest@.subrange(sp as int + 1, sp2),
            None => rest@.skip(sp as int + 1),
        }));
    }
    let eq = match find_byte(tok, 61, 0) {
        Some(eq) => eq,
        None => {
            return Err(GearsApiError::Msg("could not extract property value".to_owned()));
        },
    };
    let prop_name: &[u8] = &tok[0..eq];
    proof {
        assert(prop_name@ =~= tok@.take(eq as int));
    }
    let prop_val: &[u8] = match find_byte(tok, 61, eq + 1) {
        Some(eq2) => &tok[eq + 1..eq2],
        None => &tok[eq + 1..tok.len()],
    };
    proof {
        assert(prop_val@ =~= (match find_from(tok@, 61u8, eq as int + 1) {
            Some(eq2) => tok@.subrange(eq as int + 1, eq2),
            None => tok@.skip(eq as int + 1),
        }));
    }
    let name_ok = prop_name.len() == 4 && ascii_lower_exec(prop_name[0]) == 110
        && ascii_lower_exec(prop_name[1]) == 97 && ascii_lower_exec(prop_name[2]) == 109
        && ascii_lower_exec(prop_name[3]) == 101;
    if !name_ok {
        return Err(GearsApiError::Msg("unknown property".to_owned()));
    }
    let m = GearsLibraryMetaData {
        name: vstd::slice::slice_to_vec(prop_val),
        engine: vstd::slice::slice_to_vec(engine),
        code: vstd::slice::slice_to_vec(b),
    };
    proof {
        assert(parse_header(code.spec_bytes()) == Ok::<(Seq<u8>, Seq<u8>), HeaderError>(
            (m@.engine, m@.name),
        ));
    }
    Ok(m)
}

/// One active library: its metadata and its registrations, each a name bound
/// to a handler reference (functions) or to an engine slot (consumers).
pub struct GearsLibrary {
    pub meta_data: GearsLibraryMetaData,
    pub functions: Vec<(Vec<u8>, u64)>,
    pub stream_consumers: Vec<(Vec<u8>, usize)>,
    pub notifications_consumers: Vec<(Vec<u8>, usize)>,
}

/// Mathematical state of one library.
#[verifier::ext_equal]
pub ghost struct LibraryView {
    pub meta: MetaDataView,
    pub functions: Seq<(Seq<u8>, u64)>,
    pub stream_consumers: Seq<(Seq<u8>, usize)>,
    pub notifications_consumers: Seq<(Seq<u8>, usize)>,
}

impl View for GearsLibrary {
    type V = LibraryView;

    open spec fn view(&self) -> LibraryView {
        LibraryView {
            meta: self.meta_data@,
            functions: self.functions@.map_values(|p: (Vec<u8>, u64)| (p.0@, p.1)),
            stream_consumers: self.stream_consumers@.map_values(|p: (Vec<u8>, usize)| (p.0@, p.1)),
            notifications_consumers: self.notifications_consumers@.map_values(
                |p: (Vec<u8>, usize)| (p.0@, p.1),
            ),
        }
    }
}

/// Everything the engines hold, as one mathematical value: the snapshot a
/// load transaction must restore on failure.
#[verifier::ext_equal]
pub ghost struct EngineSnap {
    pub libraries: Seq<LibraryView>,
    pub streams: Seq<Option<StreamConsumerView>>,
    pub notif: KeysNotificationsView,
}

/// An in-progress load transaction: the metadata of the incoming library,
/// what it has registered so far, the undo log of every in-place mutation,
/// the detached library it may be upgrading (with its position in the
/// library table), the table sizes at which the transaction began, and the
/// snapshot rollback must restore.
pub struct GearsLibraryCtx {
    pub meta_data: GearsLibraryMetaData,
    pub functions: Vec<(Vec<u8>, u64)>,
    pub stream_consumers: Vec<(Vec<u8>, usize)>,
    pub notifications_consumers: Vec<(Vec<u8>, usize)>,
    pub revert_stream_consumers: Vec<(usize, u64, usize, bool)>,
    pub revert_notifications_consumers: Vec<(usize, Option<u64>)>,
    pub old_lib: Option<(usize, GearsLibrary)>,
    pub base_stream_len: usize,
    pub base_notif_table_len: usize,
    pub base_notif_index_len: usize,
    pub snapshot: Ghost<EngineSnap>,
}

/// Mathematical state of a transaction.
#[verifier::ext_equal]
pub ghost struct TxView {
    pub meta: MetaDataView,
    pub functions: Seq<(Seq<u8>, u64)>,
    pub stream_consumers: Seq<(Seq<u8>, usize)>,
    pub notifications_consumers: Seq<(Seq<u8>, usize)>,
    pub revert_streams: Seq<(usize, u64, usize, bool)>,
    pub revert_notifs: Seq<(usize, Option<u64>)>,
    pub old_lib: Option<(usize, LibraryView)>,
    pub base_stream_len: usize,
    pub base_notif_table_len: usize,
    pub base_notif_index_len: usize,
    pub snapshot: EngineSnap,
}

impl View for GearsLibraryCtx {
    type V = TxView;

    open spec fn view(&self) -> TxView {
        TxView {
            meta: self.meta_data@,
            functions: self.functions@.map_values(|p: (Vec<u8>, u64)| (p.0@, p.1)),
            stream_consumers: self.stream_consumers@.map_values(|p: (Vec<u8>, usize)| (p.0@, p.1)),
            notifications_consumers: self.notifications_consumers@.map_values(
                |p: (Vec<u8>, usize)| (p.0@, p.1),
            ),
            revert_streams: self.revert_stream_consumers@,
            revert_notifs: self.revert_notifications_consumers@,
            old_lib: match self.old_lib {
                Some((k, ref l)) => Some((k, l@)),
                None => None,
            },
            base_stream_len: self.base_stream_len,
            base_notif_table_len: self.base_notif_table_len,
            base_notif_index_len: self.base_notif_index_len,
            snapshot: self.snapshot@,
        }
    }
}

/// The runtime: active libraries, the two consumer engines, and at most one
/// open load transaction (loads are serialized by the host's single
/// execution lock).
pub struct GearsCtx {
    pub libraries: Vec<GearsLibrary>,
    pub stream_ctx: StreamReaderCtx,
    pub notifications_ctx: KeysNotificationsCtx,
    pub load: Option<GearsLibraryCtx>,
}

/// Mathematical state of the runtime.
#[verifier::ext_equal]
pub ghost struct GearsView {
    pub libraries: Seq<LibraryView>,
    pub streams: Seq<Option<StreamConsumerView>>,
    pub notif: KeysNotificationsView,
    pub load: Option<TxView>,
}

impl View for GearsCtx {
    type V = GearsView;

    open spec fn view(&self) -> GearsView {
        GearsView {
            libraries: self.libraries@.map_values(|l: GearsLibrary| l@),
            streams: self.stream_ctx@,
            notif: self.notifications_ctx@,
            load: match self.load {
                Some(ref tx) => Some(tx@),
                None => None,
            },
        }
    }
}

/// The engine state a snapshot captures.
pub open spec fn snap_of(g: GearsView) -> EngineSnap {
    EngineSnap { libraries: g.libraries, streams: g.streams, notif: g.notif }
}

/// Index of the library carrying `name`.
pub open spec fn find_lib(libs: Seq<LibraryView>, name: Seq<u8>) -> Option<int>
    decreases libs.len(),
{
    if libs.len() == 0 {
        None
    } else if libs[0].meta.name == name {
        Some(0int)
    } else {
        match find_lib(libs.subrange(1, libs.len() as int), name) {
            Some(i) => Some(i + 1),
            None => None,
        }
    }
}

/// `find_lib` returns the first index carrying `name`, or `None` exactly
/// when no library does.
pub proof fn lemma_find_lib(libs: Seq<LibraryView>, name: Seq<u8>)
    ensures
        match find_lib(libs, name) {
            Some(k) => 0 <= k < libs.len() && libs[k].meta.name == name && (forall|i: int|
                0 <= i < k ==> (#[trigger] libs[i]).meta.name != name),
            None => forall|i: int| 0 <= i < libs.len() ==> (#[trigger] libs[i]).meta.name != name,
        },
    decreases libs.len(),
{
    if libs.len() > 0 && libs[0].meta.name != name {
        let rest = libs.subrange(1, libs.len() as int);
        lemma_find_lib(rest, name);
        match find_lib(rest, name) {
            Some(i) => {
                assert(rest[i] == libs[i + 1]);
                assert forall|j: int| 0 <= j < i + 1 implies (#[trigger] libs[j]).meta.name
                    != name by {
                    if j > 0 {
                        assert(rest[j - 1] == libs[j]);
                    }
                }
            },
            None => {
                assert forall|j: int| 0 <= j < libs.len() implies (#[trigger] libs[j]).meta.name
                    != name by {
                    if j > 0 {
                        assert(rest[j - 1] == libs[j]);
                    }
                }
            },
        }
    }
}

/// Undo one recorded stream-consumer mutation: restore handler, window and
/// trim of the slot to the recorded prior values.
pub open spec fn revert_stream_one(
    v: Seq<Option<StreamConsumerView>>,
    r: (usize, u64, usize, bool),
) -> Seq<Option<StreamConsumerView>> {
    if r.0 < v.len() {
        match v[r.0 as int] {
            Some(c) => v.update(
                r.0 as int,
                Some((StreamConsumerView { handler: r.1, window: r.2, trim: r.3, ..c })),
            ),
            None => v,
        }
    } else {
        v
    }
}

/// Undo a whole stream undo log, newest record first.
pub open spec fn apply_stream_reverts(
    v: Seq<Option<StreamConsumerView>>,
    revs: Seq<(usize, u64, usize, bool)>,
) -> Seq<Option<StreamConsumerView>>
    decreases revs.len(),
{
    if revs.len() == 0 {
        v
    } else {
        apply_stream_reverts(revert_stream_one(v, revs.last()), revs.drop_last())
    }
}

/// Undo one recorded notification-handler swap.
pub open spec fn revert_notif_one(
    t: Seq<Option<NotificationConsumerView>>,
    r: (usize, Option<u64>),
) -> Seq<Option<NotificationConsumerView>> {
    if r.0 < t.len() {
        match t[r.0 as int] {
            Some(c) => t.update(
                r.0 as int,
                Some((NotificationConsumerView { callback: r.1, ..c })),
            ),
            None => t,
        }
    } else {
        t
    }
}

/// Undo a whole notification undo log, newest record first.
pub open spec fn apply_notif_reverts(
    t: Seq<Option<NotificationConsumerView>>,
    revs: Seq<(usize, Option<u64>)>,
) -> Seq<Option<NotificationConsumerView>>
    decreases revs.len(),
{
    if revs.len() == 0 {
        t
    } else {
        apply_notif_reverts(revert_notif_one(t, revs.last()), revs.drop_last())
    }
}

proof fn lemma_stream_reverts_len(
    v: Seq<Option<StreamConsumerView>>,
    revs: Seq<(usize, u64, usize, bool)>,
)
    ensures
        apply_stream_reverts(v, revs).len() == v.len(),
    decreases revs.len(),
{
    if revs.len() > 0 {
        lemma_stream_reverts_len(revert_stream_one(v, revs.last()), revs.drop_last());
    }
}

proof fn lemma_notif_reverts_len(
    t: Seq<Option<NotificationConsumerView>>,
    revs: Seq<(usize, Option<u64>)>,
)
    ensures
        apply_notif_reverts(t, revs).len() == t.len(),
    decreases revs.len(),
{
    if revs.len() > 0 {
        lemma_notif_reverts_len(revert_notif_one(t, revs.last()), revs.drop_last());
    }
}

proof fn lemma_stream_reverts_agree(
    v1: Seq<Option<StreamConsumerView>>,
    v2: Seq<Option<StreamConsumerView>>,
    revs: Seq<(usize, u64, usize, bool)>,
    base: int,
)
    requires
        0 <= base <= v1.len(),
        base <= v2.len(),
        forall|i: int| 0 <= i < base ==> v1[i] == v2[i],
    ensures
        apply_stream_reverts(v1, revs).take(base) == apply_stream_reverts(v2, revs).take(base),
    decreases revs.len(),
{
    lemma_stream_reverts_len(v1, revs);
    lemma_stream_reverts_len(v2, revs);
    if revs.len() == 0 {
        assert(v1.take(base) =~= v2.take(base));
    } else {
        let r = revs.last();
        let w1 = revert_stream_one(v1, r);
        let w2 = revert_stream_one(v2, r);
        assert forall|i: int| 0 <= i < base implies w1[i] == w2[i] by {}
        lemma_stream_reverts_agree(w1, w2, revs.drop_last(), base);
    }
}

proof fn lemma_notif_reverts_agree(
    t1: Seq<Option<NotificationConsumerView>>,
    t2: Seq<Option<NotificationConsumerView>>,
    revs: Seq<(usize, Option<u64>)>,
    base: int,
)
    requires
        0 <= base <= t1.len(),
        base <= t2.len(),
        forall|i: int| 0 <= i < base ==> t1[i] == t2[i],
    ensures
        apply_notif_reverts(t1, revs).take(base) == apply_notif_reverts(t2, revs).take(base),
    decreases revs.len(),
{
    lemma_notif_reverts_len(t1, revs);
    lemma_notif_reverts_len(t2, revs);
    if revs.len() == 0 {
        assert(t1.take(base) =~= t2.take(base));
    } else {
        let r = revs.last();
        let w1 = revert_notif_one(t1, r);
        let w2 = revert_notif_one(t2, r);
        assert forall|i: int| 0 <= i < base implies w1[i] == w2[i] by {}
        lemma_notif_reverts_agree(w1, w2, revs.drop_last(), base);
    }
}

/// Library names are unique.
pub open spec fn libs_wf(libs: Seq<LibraryView>) -> bool {
    forall|i: int, j: int|
        0 <= i < j < libs.len() ==> (#[trigger] libs[i]).meta.name != (
        #[trigger] libs[j]).meta.name
}

/// What holds of an open transaction against the current engine state: the
/// snapshot it promises to restore is exactly what undoing the transaction
/// yields - shedding the table entries it appended (everything past the base
/// sizes) and unwinding its undo log, newest record first - plus the
/// detached library put back in its place.
pub open spec fn load_inv(
    libraries: Seq<LibraryView>,
    streams: Seq<Option<StreamConsumerView>>,
    notif: KeysNotificationsView,
    tx: TxView,
) -> bool {
    &&& tx.base_stream_len <= streams.len()
    &&& tx.base_notif_table_len <= notif.table.len()
    &&& tx.base_notif_index_len <= notif.index.len()
    &&& tx.snapshot.streams == apply_stream_reverts(streams, tx.revert_streams).take(
        tx.base_stream_len as int,
    )
    &&& tx.snapshot.notif.table == apply_notif_reverts(notif.table, tx.revert_notifs).take(
        tx.base_notif_table_len as int,
    )
    &&& tx.snapshot.notif.index == notif.index.take(tx.base_notif_index_len as int)
    &&& tx.snapshot.libraries == (match tx.old_lib {
        Some((k, l)) => libraries.insert(k as int, l),
        None => libraries,
    })
    &&& (match tx.old_lib {
        Some((k, _)) => k <= libraries.len(),
        None => true,
    })
    &&& find_lib(libraries, tx.meta.name) is None
    &&& reader_wf(tx.snapshot.streams)
    &&& notif_wf(tx.snapshot.notif)
    &&& libs_wf(tx.snapshot.libraries)
}

impl GearsCtx {
    /// Everything that must hold between operations: both engines are
    /// well-formed, library names are unique, and an open transaction's undo
    /// log leads back exactly to its snapshot.
    pub open spec fn wf(&self) -> bool {
        &&& self.stream_ctx.wf()
        &&& self.notifications_ctx.wf()
        &&& libs_wf(self@.libraries)
        &&& (match self@.load {
            Some(tx) => load_inv(self@.libraries, self@.streams, self@.notif, tx),
            None => true,
        })
    }

    /// Whether a load transaction is open.
    pub open spec fn loading(&self) -> bool {
        self.load is Some
    }

    /// A runtime with no libraries and no registrations.
    pub fn new() -> (g: GearsCtx)
        ensures
            g.wf(),
            !g.loading(),
            g@.libraries == Seq::<LibraryView>::empty(),
            g@.streams == Seq::<Option<StreamConsumerView>>::empty(),
            g@.notif.table == Seq::<Option<NotificationConsumerView>>::empty(),
            g@.notif.index == Seq::<usize>::empty(),
    {
        let g = GearsCtx {
            libraries: Vec::new(),
            stream_ctx: StreamReaderCtx::new(),
            notifications_ctx: KeysNotificationsCtx::new(),
            load: None,
        };
        proof {
            assert(g@.libraries =~= Seq::<LibraryView>::empty());
        }
        g
    }

    /// Index of the active library named `name`.
    fn find_library(&self, name: &[u8]) -> (r: Option<usize>)
        ensures
            match r {
                Some(k) => find_lib(self@.libraries, name@) == Some(k as int),
                None => find_lib(self@.libraries, name@) is None,
            },
    {
        let mut k: usize = 0;
        while k < self.libraries.len()
            invariant
                k <= self@.libraries.len(),
                forall|i: int|
                    0 <= i < k ==> (#[trigger] self@.libraries[i]).meta.name != name@,
            decreases self@.libraries.len() - k,
        {
            if crate::keys::bytes_eq(self.libraries[k].meta_data.name.as_slice(), name) {
                proof {
                    lemma_find_lib_at(self@.libraries, name@, k as int);
                }
                return Some(k);
            }
            k = k + 1;
        }
        proof {
            lemma_find_lib(self@.libraries, name@);
            match find_lib(self@.libraries, name@) {
                Some(f) => {
                    assert(self@.libraries[f].meta.name != name@);
                },
                None => {},
            }
        }
        None
    }
}

/// The engine slot of the detached library's stream consumer named `name`.
pub open spec fn old_stream_slot(tx: TxView, name: Seq<u8>) -> Option<usize> {
    match tx.old_lib {
        Some((_, l)) => match crate::keys::find_key(l.stream_consumers, name) {
            Some(j) => Some(l.stream_consumers[j].1),
            None => None,
        },
        None => None,
    }
}

/// The registry slot of the detached library's notification consumer named
/// `name`.
pub open spec fn old_notif_slot(tx: TxView, name: Seq<u8>) -> Option<usize> {
    match tx.old_lib {
        Some((_, l)) => match crate::keys::find_key(l.notifications_consumers, name) {
            Some(j) => Some(l.notifications_consumers[j].1),
            None => None,
        },
        None => None,
    }
}

impl GearsCtx {
    /// Open a load transaction for the library `meta` names. With a
    /// same-named library active and `upgrade` false the load is refused
    /// untouched; with `upgrade` true that library is detached as the
    /// rollback target and its in-place mutations begin recording. The
    /// snapshot the transaction promises to restore is exactly the state at
    /// this call.
    pub fn function_load_begin(&mut self, meta: GearsLibraryMetaData, upgrade: bool) -> (r: Result<
        (),
        GearsApiError,
    >)
        requires
            old(self).wf(),
            !old(self).loading(),
        ensures
            final(self).wf(),
            match r {
                Ok(_) => {
                    &&& final(self).loading()
                    &&& (final(self)@.load matches Some(tx) && {
                        &&& tx.snapshot == snap_of(old(self)@)
                        &&& tx.meta == meta@
                        &&& tx.functions.len() == 0
                        &&& tx.stream_consumers.len() == 0
                        &&& tx.notifications_consumers.len() == 0
                        &&& tx.old_lib == (match find_lib(old(self)@.libraries, meta@.name) {
                            Some(k) => Some((k as usize, old(self)@.libraries[k])),
                            None => Option::<(usize, LibraryView)>::None,
                        })
                    })
                    &&& final(self)@.streams == old(self)@.streams
                    &&& final(self)@.notif == old(self)@.notif
                    &&& final(self)@.libraries == (match find_lib(old(self)@.libraries, meta@.name) {
                        Some(k) => old(self)@.libraries.remove(k),
                        None => old(self)@.libraries,
                    })
                    &&& (find_lib(old(self)@.libraries, meta@.name) is Some ==> upgrade)
                },
                Err(e) => {
                    &&& find_lib(old(self)@.libraries, meta@.name) is Some
                    &&& !upgrade
                    &&& final(self)@ == old(self)@
                    &&& (e matches GearsApiError::Msg(s) && s@ == "Library already exists"@)
                },
            },
    {
        let found = self.find_library(meta.name.as_slice());
        let k = match found {
            Some(k) => {
                if !upgrade {
                    proof {
                        assert(final(self)@ =~= old(self)@);
                    }
                    return Err(GearsApiError::Msg("Library already exists".to_owned()));
                }
                Some(k)
            },
            None => None,
        };
        let ghost pre = self@;
        let old_lib: Option<(usize, GearsLibrary)> = match k {
            Some(k) => {
                proof {
                    lemma_find_lib(pre.libraries, meta@.name);
                }
                let lib = self.libraries.remove(k);
                Some((k, lib))
            },
            None => None,
        };
        let sl = self.stream_ctx.consumers.len();
        let ntl = self.notifications_ctx.table.len();
        let nil = self.notifications_ctx.consumers.len();
        let tx = GearsLibraryCtx {
            meta_data: meta,
            functions: Vec::new(),
            stream_consumers: Vec::new(),
            notifications_consumers: Vec::new(),
            revert_stream_consumers: Vec::new(),
            revert_notifications_consumers: Vec::new(),
            old_lib,
            base_stream_len: sl,
            base_notif_table_len: ntl,
            base_notif_index_len: nil,
            snapshot: Ghost(snap_of(pre)),
        };
        self.load = Some(tx);
        proof {
            let v = final(self)@;
            let txv = v.load->Some_0;
            assert(v.streams.take(sl as int) =~= v.streams);
            assert(v.notif.table.take(ntl as int) =~= v.notif.table);
            assert(v.notif.index.take(nil as int) =~= v.notif.index);
            match find_lib(pre.libraries, meta@.name) {
                Some(kk) => {
                    assert(v.libraries =~= pre.libraries.remove(kk));
                    assert(v.libraries.insert(kk, pre.libraries[kk]) =~= pre.libraries);
                    assert forall|i: int, j: int|
                        0 <= i < j < v.libraries.len() implies (
                    #[trigger] v.libraries[i]).meta.name != (#[trigger] v.libraries[j]).meta.name by {
                        let i0: int = if i < kk {
                            i
                        } else {
                            i + 1
                        };
                        let j0: int = if j < kk {
                            j
                        } else {
                            j + 1
                        };
                        assert(v.libraries[i] == pre.libraries[i0]);
                        assert(v.libraries[j] == pre.libraries[j0]);
                    }
                    assert(find_lib(v.libraries, meta@.name) is None) by {
                        lemma_find_lib(v.libraries, meta@.name);
                        match find_lib(v.libraries, meta@.name) {
                            Some(f) => {
                                let f0: int = if f < kk {
                                    f
                                } else {
                                    f + 1
                                };
                                assert(v.libraries[f] == pre.libraries[f0]);
                                assert(pre.libraries[kk].meta.name == meta@.name);
                            },
                            None => {},
                        }
                    }
                },
                None => {
                    assert(v.libraries =~= pre.libraries);
                },
            }
            assert(txv.snapshot =~= snap_of(old(self)@));
        }
        Ok(())
    }

    /// Register a function handler under `name` in the open transaction; a
    /// name already registered by this load is refused.
    pub fn register_function(&mut self, name: &str, function: u64) -> (r: Result<
        (),
        GearsApiError,
    >)
        requires
            old(self).wf(),
            old(self).loading(),
        ensures
            final(self).wf(),
            final(self).loading(),
            final(self)@.streams == old(self)@.streams,
            final(self)@.notif == old(self)@.notif,
            final(self)@.libraries == old(self)@.libraries,
            old(self)@.load matches Some(txo) ==> (final(self)@.load matches Some(tx) && (match r {
                Ok(_) => crate::keys::find_key(txo.functions, name.spec_bytes()) is None && tx == (
                TxView {
                    functions: txo.functions.push((name.spec_bytes(), function)),
                    ..txo
                }),
                Err(e) => crate::keys::find_key(txo.functions, name.spec_bytes()) is Some && tx
                    == txo && (e matches GearsApiError::Msg(s) && s@
                    == "Function already exists"@),
            })),
    {
        let nb = name.as_bytes();
        let ghost txo = old(self)@.load->Some_0;
        let tx = match &mut self.load {
            Some(tx) => tx,
            None => vstd::pervasive::unreached(),
        };
        let dup = crate::keys::find_key_exec(&tx.functions, nb);
        proof {
            match dup {
                Some(j) => {
                    crate::keys::lemma_find_key_at(txo.functions, nb@, j as int);
                },
                None => {
                    crate::keys::lemma_find_key(txo.functions, nb@);
                    match crate::keys::find_key(txo.functions, nb@) {
                        Some(f) => {
                            assert(txo.functions[f].0 == tx.functions@[f].0@);
                        },
                        None => {},
                    }
                },
            }
        }
        if dup.is_some() {
            return Err(GearsApiError::Msg("Function already exists".to_owned()));
        }
        tx.functions.push((vstd::slice::slice_to_vec(nb), function));
        proof {
            let txn = final(self)@.load->Some_0;
            assert(txn =~= (TxView {
                functions: txo.functions.push((name.spec_bytes(), function)),
                ..txo
            }));
        }
        Ok(())
    }

    /// Register a stream consumer under `name` in the open transaction.
    ///
    /// A name already registered by this load is refused. A name carried by
    /// the detached library is a hot upgrade: handler, window and trim flag
    /// are swapped in place (prior values recorded for rollback), the prefix
    /// must be unchanged, and cursors are untouched; `Ok(false)` is
    /// returned. Otherwise a fresh registration is created and `Ok(true)`
    /// asks the caller to scan the keyspace for existing matching streams
    /// when acting as primary.
    pub fn register_stream_consumer(
        &mut self,
        name: &str,
        prefix: &str,
        handler: u64,
        window: usize,
        trim: bool,
    ) -> (r: Result<bool, GearsApiError>)
        requires
            old(self).wf(),
            old(self).loading(),
        ensures
            final(self).wf(),
            final(self).loading(),
            final(self)@.libraries == old(self)@.libraries,
            final(self)@.notif == old(self)@.notif,
            old(self)@.load matches Some(txo) ==> (final(self)@.load matches Some(tx) && (match r {
                Ok(fresh) => {
                    &&& crate::keys::find_key(txo.stream_consumers, name.spec_bytes()) is None
                    &&& if fresh {
                        &&& old_stream_slot(txo, name.spec_bytes()) is None
                        &&& final(self)@.streams == old(self)@.streams.push(
                            Some(
                                crate::stream_reader::fresh_consumer_view(
                                    prefix.spec_bytes(),
                                    handler,
                                    window,
                                    trim,
                                ),
                            ),
                        )
                        &&& tx == (TxView {
                            stream_consumers: txo.stream_consumers.push(
                                (name.spec_bytes(), old(self)@.streams.len() as usize),
                            ),
                            ..txo
                        })
                    } else {
                        &&& (old_stream_slot(txo, name.spec_bytes()) matches Some(slot) && {
                            &&& slot < old(self)@.streams.len()
                            &&& (old(self)@.streams[slot as int] matches Some(c) && {
                                &&& c.prefix == prefix.spec_bytes()
                                &&& final(self)@.streams == old(self)@.streams.update(
                                    slot as int,
                                    Some(
                                        (StreamConsumerView { handler, window, trim, ..c }),
                                    ),
                                )
                                &&& tx == (TxView {
                                    stream_consumers: txo.stream_consumers.push(
                                        (name.spec_bytes(), slot),
                                    ),
                                    revert_streams: txo.revert_streams.push(
                                        (slot, c.handler, c.window, c.trim),
                                    ),
                                    ..txo
                                })
                            })
                        })
                    }
                },
                Err(e) => {
                    &&& final(self)@ == old(self)@
                    &&& (e matches GearsApiError::Msg(s) && {
                        ||| (crate::keys::find_key(txo.stream_consumers, name.spec_bytes())
                            is Some && s@ == "Stream registration already exists"@)
                        ||| (crate::keys::find_key(txo.stream_consumers, name.spec_bytes())
                            is None && (old_stream_slot(txo, name.spec_bytes()) matches Some(slot)
                            && !(slot < old(self)@.streams.len() && (old(
                            self,
                        )@.streams[slot as int] matches Some(c) && c.prefix
                            == prefix.spec_bytes()))) && s@
                            == "Can not upgrade an existing consumer with different prefix"@)
                    })
                },
            })),
    {
        let nb = name.as_bytes();
        let pb = prefix.as_bytes();
        let ghost txo = old(self)@.load->Some_0;

        let dup = {
            let tx = match &self.load {
                Some(tx) => tx,
                None => vstd::pervasive::unreached(),
            };
            let dup = crate::keys::find_key_exec(&tx.stream_consumers, nb);
            proof {
                match dup {
                    Some(j) => {
                        crate::keys::lemma_find_key_at(txo.stream_consumers, nb@, j as int);
                    },
                    None => {
                        crate::keys::lemma_find_key(txo.stream_consumers, nb@);
                        match crate::keys::find_key(txo.stream_consumers, nb@) {
                            Some(f) => {
                                assert(txo.stream_consumers[f].0 == tx.stream_consumers@[f].0@);
                            },
                            None => {},
                        }
                    },
                }
            }
            dup
        };
        if dup.is_some() {
            proof {
                assert(final(self)@ =~= old(self)@);
            }
            return Err(GearsApiError::Msg("Stream registration already exists".to_owned()));
        }

        let old_slot: Option<usize> = {
            let tx = match &self.load {
                Some(tx) => tx,
                None => vstd::pervasive::unreached(),
            };
            match &tx.old_lib {
                Some((_, l)) => {
                    let f = crate::keys::find_key_exec(&l.stream_consumers, nb);
                    proof {
                        let lv = txo.old_lib->Some_0.1;
                        match f {
                            Some(j) => {
                                crate::keys::lemma_find_key_at(lv.stream_consumers, nb@, j as int);
                            },
                            None => {
                                crate::keys::lemma_find_key(lv.stream_consumers, nb@);
                                match crate::keys::find_key(lv.stream_consumers, nb@) {
                                    Some(g) => {
                                        assert(lv.stream_consumers[g].0 == l.stream_consumers@[
                                            g].0@);
                                    },
                                    None => {},
                                }
                            },
                        }
                    }
                    match f {
                        Some(j) => Some(l.stream_consumers[j].1),
                        None => None,
                    }
                },
                None => None,
            }
        };

        match old_slot {
            Some(slot) => {
                proof {
                    assert(old_stream_slot(txo, nb@) == Some(slot));
                }
                if !self.stream_ctx.consumer_prefix_is(slot, pb) {
                    proof {
                        assert(final(self)@ =~= old(self)@);
                    }
                    return Err(
                        GearsApiError::Msg(
                            "Can not upgrade an existing consumer with different prefix".to_owned(),
                        ),
                    );
                }
                let ghost v0 = old(self)@.streams;
                let ghost c = v0[slot as int]->Some_0;
                let prior = self.stream_ctx.swap_consumer_config(slot, handler, window, trim);
                let (ph, pw, pt) = match prior {
                    Some(t) => t,
                    None => vstd::pervasive::unreached(),
                };
                let tx = match &mut self.load {
                    Some(tx) => tx,
                    None => vstd::pervasive::unreached(),
                };
                tx.revert_stream_consumers.push((slot, ph, pw, pt));
                tx.stream_consumers.push((vstd::slice::slice_to_vec(nb), slot));
                proof {
                    let txn = final(self)@.load->Some_0;
                    assert(txn =~= (TxView {
                        stream_consumers: txo.stream_consumers.push((name.spec_bytes(), slot)),
                        revert_streams: txo.revert_streams.push((slot, c.handler, c.window, c.trim)),
                        ..txo
                    }));
                    let v1 = final(self)@.streams;
                    let rr = (slot, c.handler, c.window, c.trim);
                    assert(v1 == v0.update(
                        slot as int,
                        Some((StreamConsumerView { handler, window, trim, ..c })),
                    ));
                    assert(revert_stream_one(v1, rr) =~= v0) by {
                        assert(v1[slot as int] == Some(
                            (StreamConsumerView { handler, window, trim, ..c }),
                        ));
                        assert((StreamConsumerView {
                            handler: c.handler,
                            window: c.window,
                            trim: c.trim,
                            ..(StreamConsumerView { handler, window, trim, ..c })
                        }) =~= c);
                    }
                    assert(txn.revert_streams.drop_last() =~= txo.revert_streams);
                    assert(txn.revert_streams.last() == rr);
                    assert(apply_stream_reverts(v1, txn.revert_streams) == apply_stream_reverts(
                        v0,
                        txo.revert_streams,
                    ));
                }
                Ok(false)
            },
            None => {
                let ghost v0 = old(self)@.streams;
                let id = self.stream_ctx.add_consumer(pb, handler, window, trim);
                let tx = match &mut self.load {
                    Some(tx) => tx,
                    None => vstd::pervasive::unreached(),
                };
                tx.stream_consumers.push((vstd::slice::slice_to_vec(nb), id));
                proof {
                    let txn = final(self)@.load->Some_0;
                    assert(txn =~= (TxView {
                        stream_consumers: txo.stream_consumers.push((name.spec_bytes(), id)),
                        ..txo
                    }));
                    let v1 = final(self)@.streams;
                    lemma_stream_reverts_agree(
                        v1,
                        v0,
                        txo.revert_streams,
                        txo.base_stream_len as int,
                    );
                }
                Ok(true)
            },
        }
    }

    /// Register a key-notification consumer under `name` in the open
    /// transaction. A name already registered by this load is refused; a
    /// name carried by the detached library keeps its binding and statistics
    /// and only has its handler swapped in place (the prior handler recorded
    /// for rollback); otherwise a fresh consumer is bound to `key`.
    pub fn register_key_space_notification_consumer(
        &mut self,
        name: &str,
        key: RegisteredKeys<'_>,
        callback: u64,
    ) -> (r: Result<(), GearsApiError>)
        requires
            old(self).wf(),
            old(self).loading(),
        ensures
            final(self).wf(),
            final(self).loading(),
            final(self)@.libraries == old(self)@.libraries,
            final(self)@.streams == old(self)@.streams,
            final(self)@.notif.index == (match r {
                Ok(_) => if old_notif_slot(old(self)@.load->Some_0, name.spec_bytes()) is None {
                    old(self)@.notif.index.push(old(self)@.notif.table.len() as usize)
                } else {
                    old(self)@.notif.index
                },
                Err(_) => old(self)@.notif.index,
            }),
            old(self)@.load matches Some(txo) ==> (final(self)@.load matches Some(tx) && (match r {
                Ok(_) => {
                    &&& crate::keys::find_key(txo.notifications_consumers, name.spec_bytes())
                        is None
                    &&& (match old_notif_slot(txo, name.spec_bytes()) {
                        Some(slot) => {
                            &&& tx.notifications_consumers == txo.notifications_consumers.push(
                                (name.spec_bytes(), slot),
                            )
                            &&& tx.meta == txo.meta && tx.functions == txo.functions
                                && tx.stream_consumers == txo.stream_consumers
                                && tx.revert_streams == txo.revert_streams && tx.old_lib
                                == txo.old_lib && tx.snapshot == txo.snapshot
                            &&& if slot < old(self)@.notif.table.len() && old(
                                self,
                            )@.notif.table[slot as int] is Some {
                                let c = old(self)@.notif.table[slot as int]->Some_0;
                                final(self)@.notif.table == old(self)@.notif.table.update(
                                    slot as int,
                                    Some(
                                        (NotificationConsumerView {
                                            callback: Some(callback),
                                            ..c
                                        }),
                                    ),
                                ) && tx.revert_notifs == txo.revert_notifs.push(
                                    (slot, c.callback),
                                )
                            } else {
                                final(self)@.notif.table == old(self)@.notif.table
                                    && tx.revert_notifs == txo.revert_notifs
                            }
                        },
                        None => {
                            &&& final(self)@.notif.table == old(self)@.notif.table.push(
                                Some(
                                    (NotificationConsumerView {
                                        key: (match key {
                                            RegisteredKeys::Key(k) => crate::keys_notifications::ConsumerKeyView::Key(
                                                k.spec_bytes(),
                                            ),
                                            RegisteredKeys::Prefix(p) => crate::keys_notifications::ConsumerKeyView::Prefix(
                                                p.spec_bytes(),
                                            ),
                                        }),
                                        callback: Some(callback),
                                        stats: crate::keys_notifications::fresh_stats_view(),
                                    }),
                                ),
                            )
                            &&& tx == (TxView {
                                notifications_consumers: txo.notifications_consumers.push(
                                    (name.spec_bytes(), old(self)@.notif.table.len() as usize),
                                ),
                                ..txo
                            })
                        },
                    })
                },
                Err(e) => {
                    &&& final(self)@ == old(self)@
                    &&& crate::keys::find_key(txo.notifications_consumers, name.spec_bytes())
                        is Some
                    &&& (e matches GearsApiError::Msg(s) && s@
                        == "Notification consumer already exists"@)
                },
            })),
    {
        let nb = name.as_bytes();
        let ghost txo = old(self)@.load->Some_0;

        let dup = {
            let tx = match &self.load {
                Some(tx) => tx,
                None => vstd::pervasive::unreached(),
            };
            let dup = crate::keys::find_key_exec(&tx.notifications_consumers, nb);
            proof {
                match dup {
                    Some(j) => {
                        crate::keys::lemma_find_key_at(txo.notifications_consumers, nb@, j as int);
                    },
                    None => {
                        crate::keys::lemma_find_key(txo.notifications_consumers, nb@);
                        match crate::keys::find_key(txo.notifications_consumers, nb@) {
                            Some(f) => {
                                assert(txo.notifications_consumers[f].0
                                    == tx.notifications_consumers@[f].0@);
                            },
                            None => {},
                        }
                    },
                }
            }
            dup
        };
        if dup.is_some() {
            proof {
                assert(final(self)@ =~= old(self)@);
            }
            return Err(GearsApiError::Msg("Notification consumer already exists".to_owned()));
        }

        let old_slot: Option<usize> = {
            let tx = match &self.load {
                Some(tx) => tx,
                None => vstd::pervasive::unreached(),
            };
            match &tx.old_lib {
                Some((_, l)) => {
                    let f = crate::keys::find_key_exec(&l.notifications_consumers, nb);
                    proof {
                        let lv = txo.old_lib->Some_0.1;
                        match f {
                            Some(j) => {
                                crate::keys::lemma_find_key_at(
                                    lv.notifications_consumers,
                                    nb@,
                                    j as int,
                                );
                            },
                            None => {
                                crate::keys::lemma_find_key(lv.notifications_consumers, nb@);
                                match crate::keys::find_key(lv.notifications_consumers, nb@) {
                                    Some(g) => {
                                        assert(lv.notifications_consumers[g].0
                                            == l.notifications_consumers@[g].0@);
                                    },
                                    None => {},
                                }
                            },
                        }
                    }
                    match f {
                        Some(j) => Some(l.notifications_consumers[j].1),
                        None => None,
                    }
                },
                None => None,
            }
        };

        match old_slot {
            Some(slot) => {
                proof {
                    assert(old_notif_slot(txo, nb@) == Some(slot));
                }
                let ghost t0 = old(self)@.notif.table;
                let prior = self.notifications_ctx.set_callback_of(slot, callback);
                match prior {
                    Some(p) => {
                        let ghost c = t0[slot as int]->Some_0;
                        let tx = match &mut self.load {
                            Some(tx) => tx,
                            None => vstd::pervasive::unreached(),
                        };
                        tx.revert_notifications_consumers.push((slot, p));
                        tx.notifications_consumers.push((vstd::slice::slice_to_vec(nb), slot));
                        proof {
                            let txn = final(self)@.load->Some_0;
                            assert(txn.notifications_consumers =~= txo.notifications_consumers
                                .push((name.spec_bytes(), slot)));
                            assert(txn.revert_notifs =~= txo.revert_notifs.push(
                                (slot, c.callback),
                            ));
                            let t1 = final(self)@.notif.table;
                            let rr = (slot, c.callback);
                            assert(revert_notif_one(t1, rr) =~= t0) by {
                                assert(t1[slot as int] == Some(
                                    (NotificationConsumerView { callback: Some(callback), ..c }),
                                ));
                                assert((NotificationConsumerView {
                                    callback: c.callback,
                                    ..(NotificationConsumerView {
                                        callback: Some(callback),
                                        ..c
                                    })
                                }) =~= c);
                            }
                            assert(txn.revert_notifs.drop_last() =~= txo.revert_notifs);
                            assert(txn.revert_notifs.last() == rr);
                            assert(apply_notif_reverts(t1, txn.revert_notifs)
                                == apply_notif_reverts(t0, txo.revert_notifs));
                        }
                        Ok(())
                    },
                    None => {
                        let tx = match &mut self.load {
                            Some(tx) => tx,
                            None => vstd::pervasive::unreached(),
                        };
                        tx.notifications_consumers.push((vstd::slice::slice_to_vec(nb), slot));
                        proof {
                            let txn = final(self)@.load->Some_0;
                            assert(txn.notifications_consumers =~= txo.notifications_consumers
                                .push((name.spec_bytes(), slot)));
                            assert(txn.revert_notifs =~= txo.revert_notifs);
                        }
                        Ok(())
                    },
                }
            },
            None => {
                let ghost t0 = old(self)@.notif.table;
                let id = match key {
                    RegisteredKeys::Key(k) => self.notifications_ctx.add_consumer_on_key(
                        k,
                        callback,
                    ),
                    RegisteredKeys::Prefix(p) => self.notifications_ctx.add_consumer_on_prefix(
                        p,
                        callback,
                    ),
                };
                let tx = match &mut self.load {
                    Some(tx) => tx,
                    None => vstd::pervasive::unreached(),
                };
                tx.notifications_consumers.push((vstd::slice::slice_to_vec(nb), id));
                proof {
                    let txn = final(self)@.load->Some_0;
                    assert(txn =~= (TxView {
                        notifications_consumers: txo.notifications_consumers.push(
                            (name.spec_bytes(), id),
                        ),
                        ..txo
                    }));
                    let t1 = final(self)@.notif.table;
                    lemma_notif_reverts_agree(
                        t1,
                        t0,
                        txo.revert_notifs,
                        txo.base_notif_table_len as int,
                    );
                    assert(final(self)@.notif.index.take(txo.base_notif_index_len as int)
                        =~= old(self)@.notif.index.take(txo.base_notif_index_len as int));
                }
                Ok(())
            },
        }
    }
}

/// The slot table once the registrations in `old_regs` whose names `claimed`
/// does not carry have been killed: what happens to a replaced library's
/// leftovers on a successful upgrade (and, with nothing claimed, on delete).
pub open spec fn kill_unclaimed<T>(
    v: Seq<Option<T>>,
    old_regs: Seq<(Seq<u8>, usize)>,
    claimed: Seq<(Seq<u8>, usize)>,
) -> Seq<Option<T>>
    decreases old_regs.len(),
{
    if old_regs.len() == 0 {
        v
    } else {
        let w = kill_unclaimed(v, old_regs.drop_last(), claimed);
        let p = old_regs.last();
        if crate::keys::find_key(claimed, p.0) is None && p.1 < w.len() {
            w.update(p.1 as int, Option::<T>::None)
        } else {
            w
        }
    }
}

proof fn lemma_kill_unclaimed_take_succ<T>(
    v: Seq<Option<T>>,
    old_regs: Seq<(Seq<u8>, usize)>,
    claimed: Seq<(Seq<u8>, usize)>,
    i: int,
)
    requires
        0 <= i < old_regs.len(),
    ensures
        kill_unclaimed(v, old_regs.take(i + 1), claimed) == (if crate::keys::find_key(
            claimed,
            old_regs[i].0,
        ) is None && old_regs[i].1 < kill_unclaimed(v, old_regs.take(i), claimed).len() {
            kill_unclaimed(v, old_regs.take(i), claimed).update(
                old_regs[i].1 as int,
                Option::<T>::None,
            )
        } else {
            kill_unclaimed(v, old_regs.take(i), claimed)
        }),
{
    assert(old_regs.take(i + 1).drop_last() =~= old_regs.take(i));
    assert(old_regs.take(i + 1).last() == old_regs[i]);
}

proof fn lemma_kill_unclaimed_len<T>(
    v: Seq<Option<T>>,
    old_regs: Seq<(Seq<u8>, usize)>,
    claimed: Seq<(Seq<u8>, usize)>,
)
    ensures
        kill_unclaimed(v, old_regs, claimed).len() == v.len(),
    decreases old_regs.len(),
{
    if old_regs.len() > 0 {
        lemma_kill_unclaimed_len(v, old_regs.drop_last(), claimed);
    }
}

/// The pairs a key scan would fire once a library's notification slots were
/// killed by its deletion.
pub open spec fn fired_after_delete(
    notif_table: Seq<Option<NotificationConsumerView>>,
    lib: LibraryView,
    ix: Seq<usize>,
    key: Seq<u8>,
) -> Seq<(usize, u64)> {
    crate::keys_notifications::fired_list(
        ix,
        kill_unclaimed(notif_table, lib.notifications_consumers, Seq::<(Seq<u8>, usize)>::empty()),
        key,
    )
}

/// Deleting a library stops dispatch for its former registrations.
///
/// Deletion kills every engine slot the library's registrations owned
/// ([`GearsCtx::function_del`] leaves the tables at `kill_unclaimed` with
/// nothing claimed): afterwards each such slot is dead. A dead slot never
/// dispatches again: a stream touch reports only live slots, polling a dead
/// slot answers `Idle`, offering it a record answers `false`, and a key scan
/// fires only live slots - so in particular it fires none of the deleted
/// library's notification slots.
pub proof fn lemma_delete_stops_dispatch(
    streams: Seq<Option<StreamConsumerView>>,
    notif_table: Seq<Option<NotificationConsumerView>>,
    lib: LibraryView,
    ix: Seq<usize>,
    key: Seq<u8>,
)
    ensures
        forall|i: int|
            0 <= i < lib.stream_consumers.len() && (#[trigger] lib.stream_consumers[i]).1
                < streams.len() ==> kill_unclaimed(
                streams,
                lib.stream_consumers,
                Seq::<(Seq<u8>, usize)>::empty(),
            )[lib.stream_consumers[i].1 as int] is None,
        forall|i: int|
            0 <= i < lib.notifications_consumers.len() && (
            #[trigger] lib.notifications_consumers[i]).1 < notif_table.len() ==> kill_unclaimed(
                notif_table,
                lib.notifications_consumers,
                Seq::<(Seq<u8>, usize)>::empty(),
            )[lib.notifications_consumers[i].1 as int] is None,
        forall|a: int, i: int|
            (0 <= a < fired_after_delete(notif_table, lib, ix, key).len() && 0 <= i
                < lib.notifications_consumers.len() && (
            #[trigger] lib.notifications_consumers[i]).1 < notif_table.len()) ==> (
            #[trigger] fired_after_delete(notif_table, lib, ix, key)[a]).0
                != lib.notifications_consumers[i].1,
{
    lemma_kill_all_dead(streams, lib.stream_consumers);
    lemma_kill_all_dead(notif_table, lib.notifications_consumers);
    let killed = kill_unclaimed(
        notif_table,
        lib.notifications_consumers,
        Seq::<(Seq<u8>, usize)>::empty(),
    );
    lemma_kill_unclaimed_len(notif_table, lib.notifications_consumers, Seq::<(Seq<u8>, usize)>::empty());
    crate::keys_notifications::lemma_fired_slots_live(ix, killed, key);
    let fired = fired_after_delete(notif_table, lib, ix, key);
    assert forall|a: int, i: int|
        (0 <= a < fired.len() && 0 <= i < lib.notifications_consumers.len() && (
        #[trigger] lib.notifications_consumers[i]).1 < notif_table.len()) implies (
    #[trigger] fired[a]).0 != lib.notifications_consumers[i].1 by {
        assert(killed[fired[a].0 as int] is Some);
        assert(killed[lib.notifications_consumers[i].1 as int] is None);
    }
}

proof fn lemma_kill_all_dead<T>(v: Seq<Option<T>>, regs: Seq<(Seq<u8>, usize)>)
    ensures
        forall|i: int|
            0 <= i < regs.len() && (#[trigger] regs[i]).1 < v.len() ==> kill_unclaimed(
                v,
                regs,
                Seq::<(Seq<u8>, usize)>::empty(),
            )[regs[i].1 as int] is None,
    decreases regs.len(),
{
    if regs.len() > 0 {
        let d = regs.drop_last();
        lemma_kill_all_dead(v, d);
        lemma_kill_unclaimed_len(v, d, Seq::<(Seq<u8>, usize)>::empty());
        lemma_kill_unclaimed_len(v, regs, Seq::<(Seq<u8>, usize)>::empty());
        let w = kill_unclaimed(v, d, Seq::<(Seq<u8>, usize)>::empty());
        let full = kill_unclaimed(v, regs, Seq::<(Seq<u8>, usize)>::empty());
        assert forall|i: int|
            0 <= i < regs.len() && (#[trigger] regs[i]).1 < v.len() implies full[regs[
            i].1 as int] is None by {
            if i < regs.len() - 1 {
                assert(d[i] == regs[i]);
                assert(w[regs[i].1 as int] is None);
            }
        }
    }
}

impl GearsCtx {
    /// Abort the open load transaction: every in-place mutation is undone in
    /// reverse order, every slot the transaction created is shed, and the
    /// detached library (if any) returns to its place. The engine state is
    /// afterwards exactly the snapshot taken when the transaction began -
    /// registrations, cursors and statistics restored exactly.
    pub fn function_load_abort(&mut self)
        requires
            old(self).wf(),
            old(self).loading(),
        ensures
            final(self).wf(),
            !final(self).loading(),
            snap_of(final(self)@) == old(self)@.load->Some_0.snapshot,
    {
        let ghost txv = old(self)@.load->Some_0;
        let mut load_opt: Option<GearsLibraryCtx> = None;
        core::mem::swap(&mut self.load, &mut load_opt);
        let tx = match load_opt {
            Some(tx) => tx,
            None => vstd::pervasive::unreached(),
        };
        let ghost s0 = old(self)@.streams;
        let ghost t0 = old(self)@.notif.table;

        // Undo the stream-consumer swaps, newest record first.
        let mut j: usize = tx.revert_stream_consumers.len();
        proof {
            assert(txv.revert_streams.take(j as int) =~= txv.revert_streams);
        }
        while j > 0
            invariant
                j <= txv.revert_streams.len(),
                tx@ == txv,
                self.stream_ctx.wf(),
                self@.libraries == old(self)@.libraries,
                self@.notif == old(self)@.notif,
                self@.load is None,
                self@.streams.len() == s0.len(),
                apply_stream_reverts(self@.streams, txv.revert_streams.take(j as int))
                    == apply_stream_reverts(s0, txv.revert_streams),
            decreases j,
        {
            j = j - 1;
            let (slot, h, w, t) = tx.revert_stream_consumers[j];
            let ghost cur = self@.streams;
            let _ = self.stream_ctx.swap_consumer_config(slot, h, w, t);
            proof {
                let r = txv.revert_streams[j as int];
                assert(txv.revert_streams.take(j as int + 1).drop_last() =~= txv.revert_streams
                    .take(j as int));
                assert(txv.revert_streams.take(j as int + 1).last() == r);
                if slot < cur.len() {
                    match cur[slot as int] {
                        Some(c) => {
                            assert(self@.streams =~= revert_stream_one(cur, r));
                        },
                        None => {
                            assert(self@.streams =~= revert_stream_one(cur, r));
                        },
                    }
                } else {
                    assert(self@.streams =~= revert_stream_one(cur, r));
                }
            }
        }
        proof {
            assert(txv.revert_streams.take(0) =~= Seq::<(usize, u64, usize, bool)>::empty());
            assert(self@.streams == apply_stream_reverts(s0, txv.revert_streams));
        }
        // Shed the stream slots this transaction appended.
        proof {
            assert(self@.streams.len() == self.stream_ctx.consumers@.len());
            assert(tx.base_stream_len <= self.stream_ctx.consumers@.len());
        }
        let ghost pre_trunc = self.stream_ctx.consumers@;
        self.stream_ctx.consumers.truncate(tx.base_stream_len);
        proof {
            assert(self.stream_ctx.consumers@ == pre_trunc.subrange(
                0,
                tx.base_stream_len as int,
            ));
            assert(self@.streams =~= apply_stream_reverts(s0, txv.revert_streams).take(
                txv.base_stream_len as int,
            ));
            assert(self@.streams == txv.snapshot.streams);
            assert(reader_wf(self@.streams));
        }

        // Undo the notification-handler swaps, newest record first.
        let mut j: usize = tx.revert_notifications_consumers.len();
        proof {
            assert(txv.revert_notifs.take(j as int) =~= txv.revert_notifs);
        }
        while j > 0
            invariant
                j <= txv.revert_notifs.len(),
                tx@ == txv,
                self.notifications_ctx.wf(),
                self@.libraries == old(self)@.libraries,
                self@.streams == txv.snapshot.streams,
                self@.load is None,
                self.stream_ctx.wf(),
                self@.notif.index == old(self)@.notif.index,
                self@.notif.table.len() == t0.len(),
                apply_notif_reverts(self@.notif.table, txv.revert_notifs.take(j as int))
                    == apply_notif_reverts(t0, txv.revert_notifs),
            decreases j,
        {
            j = j - 1;
            let (slot, cb) = tx.revert_notifications_consumers[j];
            let ghost cur = self@.notif.table;
            self.notifications_ctx.restore_callback_of(slot, cb);
            proof {
                let r = txv.revert_notifs[j as int];
                assert(txv.revert_notifs.take(j as int + 1).drop_last() =~= txv.revert_notifs.take(
                    j as int,
                ));
                assert(txv.revert_notifs.take(j as int + 1).last() == r);
                if slot < cur.len() {
                    match cur[slot as int] {
                        Some(c) => {
                            assert(self@.notif.table =~= revert_notif_one(cur, r));
                        },
                        None => {
                            assert(self@.notif.table =~= revert_notif_one(cur, r));
                        },
                    }
                } else {
                    assert(self@.notif.table =~= revert_notif_one(cur, r));
                }
            }
        }
        proof {
            assert(txv.revert_notifs.take(0) =~= Seq::<(usize, Option<u64>)>::empty());
            assert(self@.notif.table == apply_notif_reverts(t0, txv.revert_notifs));
        }
        // Shed the notification slots and index entries this transaction
        // appended.
        proof {
            assert(self@.notif.table.len() == self.notifications_ctx.table@.len());
            assert(tx.base_notif_table_len <= self.notifications_ctx.table@.len());
            assert(tx.base_notif_index_len <= self.notifications_ctx.consumers@.len());
        }
        let ghost pre_tt = self.notifications_ctx.table@;
        self.notifications_ctx.table.truncate(tx.base_notif_table_len);
        self.notifications_ctx.consumers.truncate(tx.base_notif_index_len);
        proof {
            assert(self.notifications_ctx.table@ == pre_tt.subrange(
                0,
                tx.base_notif_table_len as int,
            ));
            assert(self@.notif.table =~= apply_notif_reverts(t0, txv.revert_notifs).take(
                txv.base_notif_table_len as int,
            ));
            assert(self@.notif.table == txv.snapshot.notif.table);
            assert(self@.notif.index =~= txv.snapshot.notif.index);
            assert(self@.notif =~= txv.snapshot.notif);
            assert(notif_wf(self@.notif));
        }

        // Put the detached library back where it was.
        match tx.old_lib {
            Some((k, lib)) => {
                self.libraries.insert(k, lib);
                proof {
                    assert(final(self)@.libraries =~= txv.snapshot.libraries);
                }
            },
            None => {
                proof {
                    assert(final(self)@.libraries =~= txv.snapshot.libraries);
                }
            },
        }
        proof {
            assert(snap_of(final(self)@) =~= txv.snapshot);
        }
    }

    /// Close the open load transaction. A library that registered nothing at
    /// all is refused, with the full rollback an abort performs. Otherwise
    /// the new library becomes active under its name; registrations of the
    /// replaced library that the new one did not claim are destroyed with
    /// their cursors and statistics.
    pub fn function_load_commit(&mut self) -> (r: Result<(), GearsApiError>)
        requires
            old(self).wf(),
            old(self).loading(),
        ensures
            final(self).wf(),
            !final(self).loading(),
            old(self)@.load matches Some(txo) ==> (match r {
                Ok(_) => {
                    &&& (txo.functions.len() > 0 || txo.stream_consumers.len() > 0
                        || txo.notifications_consumers.len() > 0)
                    &&& final(self)@.libraries == old(self)@.libraries.push(
                        (LibraryView {
                            meta: txo.meta,
                            functions: txo.functions,
                            stream_consumers: txo.stream_consumers,
                            notifications_consumers: txo.notifications_consumers,
                        }),
                    )
                    &&& final(self)@.streams == kill_unclaimed(
                        old(self)@.streams,
                        (match txo.old_lib {
                            Some((_, l)) => l.stream_consumers,
                            None => Seq::empty(),
                        }),
                        txo.stream_consumers,
                    )
                    &&& final(self)@.notif.table == kill_unclaimed(
                        old(self)@.notif.table,
                        (match txo.old_lib {
                            Some((_, l)) => l.notifications_consumers,
                            None => Seq::empty(),
                        }),
                        txo.notifications_consumers,
                    )
                    &&& final(self)@.notif.index == old(self)@.notif.index
                },
                Err(e) => {
                    &&& txo.functions.len() == 0 && txo.stream_consumers.len() == 0
                        && txo.notifications_consumers.len() == 0
                    &&& snap_of(final(self)@) == txo.snapshot
                    &&& (e matches GearsApiError::Msg(s) && s@
                        == "No function nor registrations was registered"@)
                },
            }),
    {
        let ghost txo = old(self)@.load->Some_0;
        let empty = {
            let tx = match &self.load {
                Some(tx) => tx,
                None => vstd::pervasive::unreached(),
            };
            tx.functions.len() == 0 && tx.stream_consumers.len() == 0
                && tx.notifications_consumers.len() == 0
        };
        if empty {
            self.function_load_abort();
            return Err(
                GearsApiError::Msg("No function nor registrations was registered".to_owned()),
            );
        }
        let mut load_opt: Option<GearsLibraryCtx> = None;
        core::mem::swap(&mut self.load, &mut load_opt);
        let tx = match load_opt {
            Some(tx) => tx,
            None => vstd::pervasive::unreached(),
        };
        let GearsLibraryCtx {
            meta_data,
            functions,
            stream_consumers,
            notifications_consumers,
            revert_stream_consumers: _,
            revert_notifications_consumers: _,
            old_lib,
            base_stream_len: _,
            base_notif_table_len: _,
            base_notif_index_len: _,
            snapshot: _,
        } = tx;
        let ghost s0 = old(self)@.streams;
        let ghost t0 = old(self)@.notif.table;
        let ghost old_sregs = (match txo.old_lib {
            Some((_, l)) => l.stream_consumers,
            None => Seq::<(Seq<u8>, usize)>::empty(),
        });
        let ghost old_nregs = (match txo.old_lib {
            Some((_, l)) => l.notifications_consumers,
            None => Seq::<(Seq<u8>, usize)>::empty(),
        });
        match &old_lib {
            Some((_, lib)) => {
                // Destroy the replaced library's unclaimed stream consumers.
                let n = lib.stream_consumers.len();
                let mut i: usize = 0;
                proof {
                    assert(old_sregs.take(0) =~= Seq::<(Seq<u8>, usize)>::empty());
                }
                while i < n
                    invariant
                        i <= n,
                        n == old_sregs.len(),
                        lib@.stream_consumers == old_sregs,
                        stream_consumers@.map_values(|p: (Vec<u8>, usize)| (p.0@, p.1))
                            == txo.stream_consumers,
                        self.stream_ctx.wf(),
                        self@.libraries == old(self)@.libraries,
                        self@.notif == old(self)@.notif,
                        self@.load is None,
                        self@.streams == kill_unclaimed(s0, old_sregs.take(i as int), txo.stream_consumers),
                    decreases n - i,
                {
                    let slot = lib.stream_consumers[i].1;
                    let claimed = crate::keys::find_key_exec(
                        &stream_consumers,
                        lib.stream_consumers[i].0.as_slice(),
                    );
                    proof {
                        lemma_kill_unclaimed_take_succ(s0, old_sregs, txo.stream_consumers, i as int);
                        match claimed {
                            Some(jj) => {
                                crate::keys::lemma_find_key_at(
                                    txo.stream_consumers,
                                    old_sregs[i as int].0,
                                    jj as int,
                                );
                            },
                            None => {
                                crate::keys::lemma_find_key(
                                    txo.stream_consumers,
                                    old_sregs[i as int].0,
                                );
                                match crate::keys::find_key(
                                    txo.stream_consumers,
                                    old_sregs[i as int].0,
                                ) {
                                    Some(f) => {
                                        assert(txo.stream_consumers[f].0 == stream_consumers@[
                                            f].0@);
                                    },
                                    None => {},
                                }
                            },
                        }
                    }
                    if claimed.is_none() {
                        self.stream_ctx.remove_consumer(slot);
                    }
                    i = i + 1;
                }
                proof {
                    assert(old_sregs.take(n as int) =~= old_sregs);
                }
                // Destroy the replaced library's unclaimed notification
                // consumers.
                let n = lib.notifications_consumers.len();
                let mut i: usize = 0;
                proof {
                    assert(old_nregs.take(0) =~= Seq::<(Seq<u8>, usize)>::empty());
                }
                while i < n
                    invariant
                        i <= n,
                        n == old_nregs.len(),
                        lib@.notifications_consumers == old_nregs,
                        notifications_consumers@.map_values(|p: (Vec<u8>, usize)| (p.0@, p.1))
                            == txo.notifications_consumers,
                        self.notifications_ctx.wf(),
                        self.stream_ctx.wf(),
                        self@.libraries == old(self)@.libraries,
                        self@.streams == kill_unclaimed(s0, old_sregs, txo.stream_consumers),
                        self@.load is None,
                        self@.notif.index == old(self)@.notif.index,
                        self@.notif.table == kill_unclaimed(
                            t0,
                            old_nregs.take(i as int),
                            txo.notifications_consumers,
                        ),
                    decreases n - i,
                {
                    let slot = lib.notifications_consumers[i].1;
                    let claimed = crate::keys::find_key_exec(
                        &notifications_consumers,
                        lib.notifications_consumers[i].0.as_slice(),
                    );
                    proof {
                        lemma_kill_unclaimed_take_succ(
                            t0,
                            old_nregs,
                            txo.notifications_consumers,
                            i as int,
                        );
                        match claimed {
                            Some(jj) => {
                                crate::keys::lemma_find_key_at(
                                    txo.notifications_consumers,
                                    old_nregs[i as int].0,
                                    jj as int,
                                );
                            },
                            None => {
                                crate::keys::lemma_find_key(
                                    txo.notifications_consumers,
                                    old_nregs[i as int].0,
                                );
                                match crate::keys::find_key(
                                    txo.notifications_consumers,
                                    old_nregs[i as int].0,
                                ) {
                                    Some(f) => {
                                        assert(txo.notifications_consumers[f].0
                                            == notifications_consumers@[f].0@);
                                    },
                                    None => {},
                                }
                            },
                        }
                    }
                    if claimed.is_none() {
                        self.notifications_ctx.remove_consumer(slot);
                    }
                    i = i + 1;
                }
                proof {
                    assert(old_nregs.take(n as int) =~= old_nregs);
                }
            },
            None => {
                proof {
                    assert(self@.streams =~= kill_unclaimed(
                        s0,
                        old_sregs,
                        txo.stream_consumers,
                    ));
                    assert(self@.notif.table =~= kill_unclaimed(
                        t0,
                        old_nregs,
                        txo.notifications_consumers,
                    ));
                }
            },
        }
        // Publish the new library under its name.
        let new_lib = GearsLibrary {
            meta_data,
            functions,
            stream_consumers,
            notifications_consumers,
        };
        proof {
            assert(new_lib@ =~= (LibraryView {
                meta: txo.meta,
                functions: txo.functions,
                stream_consumers: txo.stream_consumers,
                notifications_consumers: txo.notifications_consumers,
            }));
        }
        self.libraries.push(new_lib);
        proof {
            let v = final(self)@;
            assert(v.libraries =~= old(self)@.libraries.push(
                (LibraryView {
                    meta: txo.meta,
                    functions: txo.functions,
                    stream_consumers: txo.stream_consumers,
                    notifications_consumers: txo.notifications_consumers,
                }),
            ));
            lemma_find_lib(old(self)@.libraries, txo.meta.name);
            assert forall|i: int, j: int|
                0 <= i < j < v.libraries.len() implies (#[trigger] v.libraries[i]).meta.name != (
            #[trigger] v.libraries[j]).meta.name by {
                if j == v.libraries.len() - 1 {
                    assert(v.libraries[i] == old(self)@.libraries[i]);
                }
            }
        }
        Ok(())
    }

    /// Delete the active library named `name`: every registration it owns is
    /// destroyed, so no later touch of any stream or key dispatches to it.
    pub fn function_del(&mut self, name: &str) -> (r: Result<(), GearsApiError>)
        requires
            old(self).wf(),
            !old(self).loading(),
        ensures
            final(self).wf(),
            !final(self).loading(),
            match r {
                Ok(_) => (find_lib(old(self)@.libraries, name.spec_bytes()) matches Some(k) && {
                    &&& final(self)@.libraries == old(self)@.libraries.remove(k)
                    &&& final(self)@.streams == kill_unclaimed(
                        old(self)@.streams,
                        old(self)@.libraries[k].stream_consumers,
                        Seq::<(Seq<u8>, usize)>::empty(),
                    )
                    &&& final(self)@.notif.table == kill_unclaimed(
                        old(self)@.notif.table,
                        old(self)@.libraries[k].notifications_consumers,
                        Seq::<(Seq<u8>, usize)>::empty(),
                    )
                    &&& final(self)@.notif.index == old(self)@.notif.index
                }),
                Err(e) => {
                    &&& find_lib(old(self)@.libraries, name.spec_bytes()) is None
                    &&& final(self)@ == old(self)@
                    &&& (e matches GearsApiError::Msg(s) && s@ == "library does not exists"@)
                },
            },
    {
        let nb = name.as_bytes();
        let k = match self.find_library(nb) {
            Some(k) => k,
            None => {
                proof {
                    assert(final(self)@ =~= old(self)@);
                }
                return Err(GearsApiError::Msg("library does not exists".to_owned()));
            },
        };
        proof {
            lemma_find_lib(old(self)@.libraries, nb@);
        }
        let ghost kk = k as int;
        let lib = self.libraries.remove(k);
        let ghost s0 = old(self)@.streams;
        let ghost t0 = old(self)@.notif.table;
        let ghost sregs = old(self)@.libraries[kk].stream_consumers;
        let ghost nregs = old(self)@.libraries[kk].notifications_consumers;
        let ghost none_claimed = Seq::<(Seq<u8>, usize)>::empty();

        let n = lib.stream_consumers.len();
        let mut i: usize = 0;
        proof {
            assert(sregs.take(0) =~= Seq::<(Seq<u8>, usize)>::empty());
        }
        while i < n
            invariant
                i <= n,
                n == sregs.len(),
                0 <= kk < old(self)@.libraries.len(),
                none_claimed == Seq::<(Seq<u8>, usize)>::empty(),
                lib@.stream_consumers == sregs,
                self.stream_ctx.wf(),
                self@.libraries == old(self)@.libraries.remove(kk),
                self@.notif == old(self)@.notif,
                self@.load == old(self)@.load,
                self@.load is None,
                self@.streams == kill_unclaimed(s0, sregs.take(i as int), none_claimed),
            decreases n - i,
        {
            let slot = lib.stream_consumers[i].1;
            proof {
                lemma_kill_unclaimed_take_succ(s0, sregs, none_claimed, i as int);
                assert(crate::keys::find_key(none_claimed, sregs[i as int].0) is None);
            }
            self.stream_ctx.remove_consumer(slot);
            i = i + 1;
        }
        proof {
            assert(sregs.take(n as int) =~= sregs);
        }

        let n = lib.notifications_consumers.len();
        let mut i: usize = 0;
        proof {
            assert(nregs.take(0) =~= Seq::<(Seq<u8>, usize)>::empty());
        }
        while i < n
            invariant
                i <= n,
                n == nregs.len(),
                0 <= kk < old(self)@.libraries.len(),
                none_claimed == Seq::<(Seq<u8>, usize)>::empty(),
                lib@.notifications_consumers == nregs,
                self.notifications_ctx.wf(),
                self.stream_ctx.wf(),
                self@.libraries == old(self)@.libraries.remove(kk),
                self@.streams == kill_unclaimed(s0, sregs, none_claimed),
                self@.load is None,
                self@.notif.index == old(self)@.notif.index,
                self@.notif.table == kill_unclaimed(t0, nregs.take(i as int), none_claimed),
            decreases n - i,
        {
            let slot = lib.notifications_consumers[i].1;
            proof {
                lemma_kill_unclaimed_take_succ(t0, nregs, none_claimed, i as int);
                assert(crate::keys::find_key(none_claimed, nregs[i as int].0) is None);
            }
            self.notifications_ctx.remove_consumer(slot);
            i = i + 1;
        }
        proof {
            assert(nregs.take(n as int) =~= nregs);
            let v = final(self)@;
            assert forall|i: int, j: int|
                0 <= i < j < v.libraries.len() implies (#[trigger] v.libraries[i]).meta.name != (
            #[trigger] v.libraries[j]).meta.name by {
                let i0: int = if i < kk {
                    i
                } else {
                    i + 1
                };
                let j0: int = if j < kk {
                    j
                } else {
                    j + 1
                };
                assert(v.libraries[i] == old(self)@.libraries[i0]);
                assert(v.libraries[j] == old(self)@.libraries[j0]);
            }
        }
        Ok(())
    }

    /// Look up a function handler: the library by name, then the function by
    /// name within it.
    pub fn get_function(&self, lib: &str, func: &str) -> (r: Result<u64, GearsApiError>)
        ensures
            match r {
                Ok(h) => (find_lib(self@.libraries, lib.spec_bytes()) matches Some(k)
                    && (crate::keys::find_key(
                    self@.libraries[k].functions,
                    func.spec_bytes(),
                ) matches Some(j) && h == self@.libraries[k].functions[j].1)),
                Err(e) => (e matches GearsApiError::Msg(s) && {
                    ||| (find_lib(self@.libraries, lib.spec_bytes()) is None && s@
                        == "Unknown library"@)
                    ||| (find_lib(self@.libraries, lib.spec_bytes()) matches Some(k)
                        && crate::keys::find_key(self@.libraries[k].functions, func.spec_bytes())
                        is None && s@ == "Unknown function"@)
                }),
            },
    {
        let k = match self.find_library(lib.as_bytes()) {
            Some(k) => k,
            None => {
                return Err(GearsApiError::Msg("Unknown library".to_owned()));
            },
        };
        proof {
            lemma_find_lib(self@.libraries, lib.spec_bytes());
        }
        let fb = func.as_bytes();
        let l = &self.libraries[k];
        let f = crate::keys::find_key_exec(&l.functions, fb);
        proof {
            let lv = self@.libraries[k as int];
            match f {
                Some(j) => {
                    crate::keys::lemma_find_key_at(lv.functions, fb@, j as int);
                },
                None => {
                    crate::keys::lemma_find_key(lv.functions, fb@);
                    match crate::keys::find_key(lv.functions, fb@) {
                        Some(g) => {
                            assert(lv.functions[g].0 == l.functions@[g].0@);
                        },
                        None => {},
                    }
                },
            }
        }
        match f {
            Some(j) => Ok(l.functions[j].1),
            None => Err(GearsApiError::Msg("Unknown function".to_owned())),
        }
    }

    /// Apply a replicated checkpoint-advance command: `(library, consumer,
    /// stream, ms, seq)`. Replicas and restarting nodes call this for every
    /// replicated advance so they resume without re-processing.
    pub fn update_stream_last_read_id(
        &mut self,
        library_name: &str,
        stream_consumer: &str,
        stream: &str,
        ms: u64,
        seq: u64,
    ) -> (r: Result<(), GearsApiError>)
        requires
            old(self).wf(),
            !old(self).loading(),
        ensures
            final(self).wf(),
            !final(self).loading(),
            final(self)@.libraries == old(self)@.libraries,
            final(self)@.notif == old(self)@.notif,
            match r {
                Ok(_) => (find_lib(old(self)@.libraries, library_name.spec_bytes())
                    matches Some(k) && (crate::keys::find_key(
                    old(self)@.libraries[k].stream_consumers,
                    stream_consumer.spec_bytes(),
                ) matches Some(j) && {
                    let slot = old(self)@.libraries[k].stream_consumers[j].1;
                    final(self)@.streams == (if slot < old(self)@.streams.len() {
                        match old(self)@.streams[slot as int] {
                            Some(c) => old(self)@.streams.update(
                                slot as int,
                                Some(
                                    crate::stream_reader::consumer_force_cp_transition(
                                        c,
                                        stream.spec_bytes(),
                                        crate::stream_reader::RecordId { ms, seq },
                                    ),
                                ),
                            ),
                            None => old(self)@.streams,
                        }
                    } else {
                        old(self)@.streams
                    })
                })),
                Err(e) => {
                    &&& final(self)@ == old(self)@
                    &&& (e matches GearsApiError::Msg(s) && {
                        ||| (find_lib(old(self)@.libraries, library_name.spec_bytes()) is None
                            && s@ == "No such library"@)
                        ||| (find_lib(old(self)@.libraries, library_name.spec_bytes())
                            matches Some(k) && crate::keys::find_key(
                            old(self)@.libraries[k].stream_consumers,
                            stream_consumer.spec_bytes(),
                        ) is None && s@ == "No such consumer"@)
                    })
                },
            },
    {
        let k = match self.find_library(library_name.as_bytes()) {
            Some(k) => k,
            None => {
                proof {
                    assert(final(self)@ =~= old(self)@);
                }
                return Err(GearsApiError::Msg("No such library".to_owned()));
            },
        };
        proof {
            lemma_find_lib(self@.libraries, library_name.spec_bytes());
        }
        let cb = stream_consumer.as_bytes();
        let slot = {
            let l = &self.libraries[k];
            let f = crate::keys::find_key_exec(&l.stream_consumers, cb);
            proof {
                let lv = self@.libraries[k as int];
                match f {
                    Some(j) => {
                        crate::keys::lemma_find_key_at(lv.stream_consumers, cb@, j as int);
                    },
                    None => {
                        crate::keys::lemma_find_key(lv.stream_consumers, cb@);
                        match crate::keys::find_key(lv.stream_consumers, cb@) {
                            Some(g) => {
                                assert(lv.stream_consumers[g].0 == l.stream_consumers@[g].0@);
                            },
                            None => {},
                        }
                    },
                }
            }
            match f {
                Some(j) => l.stream_consumers[j].1,
                None => {
                    proof {
                        assert(final(self)@ =~= old(self)@);
                    }
                    return Err(GearsApiError::Msg("No such consumer".to_owned()));
                },
            }
        };
        self.stream_ctx.update_stream_for_consumer(slot, stream, ms, seq);
        Ok(())
    }

    /// A bulk load (snapshot or log replay) replaces the whole dataset:
    /// every library and every registration is dropped outright; libraries
    /// are reloaded from the loaded data afterwards.
    pub fn on_loading_started(&mut self)
        requires
            old(self).wf(),
            !old(self).loading(),
        ensures
            final(self).wf(),
            !final(self).loading(),
            final(self)@.libraries == Seq::<LibraryView>::empty(),
            final(self)@.streams == Seq::<Option<StreamConsumerView>>::empty(),
            final(self)@.notif.table == Seq::<Option<NotificationConsumerView>>::empty(),
            final(self)@.notif.index == Seq::<usize>::empty(),
    {
        self.libraries = Vec::new();
        self.stream_ctx.clear();
        self.notifications_ctx.clear();
        proof {
            assert(final(self)@.libraries =~= Seq::<LibraryView>::empty());
        }
    }

    /// A flush emptied the keyspace: clear in-flight, cursor and statistic
    /// state for every tracked stream in every registration, keeping every
    /// library and registration object.
    pub fn on_flush_started(&mut self)
        requires
            old(self).wf(),
            !old(self).loading(),
        ensures
            final(self).wf(),
            !final(self).loading(),
            final(self)@.libraries == old(self)@.libraries,
            final(self)@.notif == old(self)@.notif,
            final(self)@.streams == crate::stream_reader::flush_transition(old(self)@.streams),
    {
        self.stream_ctx.clear_tracked_streams();
    }
}

/// `find_lib` lands on `k` when `k` carries the name and nothing before it
/// does.
pub proof fn lemma_find_lib_at(libs: Seq<LibraryView>, name: Seq<u8>, k: int)
    requires
        0 <= k < libs.len(),
        libs[k].meta.name == name,
        forall|i: int| 0 <= i < k ==> (#[trigger] libs[i]).meta.name != name,
    ensures
        find_lib(libs, name) == Some(k),
{
    lemma_find_lib(libs, name);
    match find_lib(libs, name) {
        Some(f) => {
            if f < k {
                assert(libs[f].meta.name != name);
            }
            if k < f {
                assert(libs[k].meta.name != name);
            }
        },
        None => {
            assert(libs[k].meta.name != name);
        },
    }
}

} // verus!
