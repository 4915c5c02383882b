//! Bomber validator loaded from a WASM module.
//!
//! The module runs sandboxed, without access to the system and with limited fuel. It must
//! export:
//! - `memory`: linear memory (at least 1 page)
//! - `is_valid(depth, action_idx, state_ptr, state_len) -> i32`
//! - `name() -> i32`: pointer to a null-terminated name
//! - `version() -> i32`: packed, `major<<16 | minor<<8 | patch`
//!
//! and may export:
//! - `relevance(depth, action_idx, state_ptr, state_len) -> i32`: Q16.16 score

use vstd::prelude::*;
use vstd::utf8;

use crate::pruners::bomber::arena::ArenaGrid;
use crate::pruners::bomber::sandbox;
use crate::pruners::bomber::sandbox::Event;
use crate::pruners::bomber::sandbox::Record;
use crate::pruners::bomber::sandbox::Sandbox;
use crate::pruners::bomber::wasm_state;
use crate::pruners::bomber::wasm_state::serialize_game_state;
use crate::pruners::bomber::ARENA_H;
use crate::pruners::bomber::ARENA_W;
use crate::text;
use crate::text::push_decimal;
use crate::text::push_text;

verus! {

/// Fuel limit per WASM call (prevents infinite loops).
pub const FUEL_PER_CALL: u64 = 10_000;

/// Pages of linear memory that a validator is given room for: 64 pages (4MB).
pub const MEMORY_PAGES: u64 = 64;

/// Return value indicating "valid" from WASM.
pub const VALID: u32 = 1;

/// Bytes of a page of linear memory.
pub const PAGE_BYTES: usize = 65_536;

/// The most bytes that a validator's name is looked for in.
pub const NAME_LIMIT: usize = 256;

/// One in Q16.16.
pub const Q16_ONE: u32 = 65_536;

/// Where loading a module failed.
#[derive(Clone, Copy, Debug, PartialEq, Eq, Structural)]
pub enum LoadStage {
    Engine,
    Compile,
    Instantiate,
    Memory,
    IsValid,
    NameExport,
    NameFuel,
    NameCall,
    NameRead,
    VersionExport,
    VersionFuel,
    VersionCall,
}

impl LoadStage {
    /// What a message of this stage begins with.
    pub open spec fn text(self) -> Seq<char> {
        match self {
            LoadStage::Engine => "failed to create wasmtime engine: "@,
            LoadStage::Compile => "failed to compile WASM module: "@,
            LoadStage::Instantiate => "failed to instantiate WASM module: "@,
            LoadStage::Memory => "missing required export: 'memory'"@,
            LoadStage::IsValid => "missing required export 'is_valid': "@,
            LoadStage::NameExport => "missing required export 'name': "@,
            LoadStage::NameFuel => "failed to set fuel for name(): "@,
            LoadStage::NameCall => "failed to call name(): "@,
            LoadStage::NameRead => "failed to read validator name: "@,
            LoadStage::VersionExport => "missing required export 'version': "@,
            LoadStage::VersionFuel => "failed to set fuel for version(): "@,
            LoadStage::VersionCall => "failed to call version(): "@,
        }
    }

    /// The message of a failure at this stage.
    pub fn failure(&self, detail: &str) -> (s: String)
        ensures
            s@ == self.text() + detail@,
    {
        let head: &str = match self {
            LoadStage::Engine => "failed to create wasmtime engine: ",
            LoadStage::Compile => "failed to compile WASM module: ",
            LoadStage::Instantiate => "failed to instantiate WASM module: ",
            LoadStage::Memory => "missing required export: 'memory'",
            LoadStage::IsValid => "missing required export 'is_valid': ",
            LoadStage::NameExport => "missing required export 'name': ",
            LoadStage::NameFuel => "failed to set fuel for name(): ",
            LoadStage::NameCall => "failed to call name(): ",
            LoadStage::NameRead => "failed to read validator name: ",
            LoadStage::VersionExport => "missing required export 'version': ",
            LoadStage::VersionFuel => "failed to set fuel for version(): ",
            LoadStage::VersionCall => "failed to call version(): ",
        };
        text::prefixed(head, detail)
    }
}

/// The pages to add to a memory of `size` bytes for `len` bytes to fit.
pub open spec fn pages_for(len: int, size: int) -> int {
    if len > size {
        (len - size) / 65536 + 1
    } else {
        0
    }
}

/// The pages to add to a memory of `size` bytes for `len` bytes to fit.
pub fn extra_pages(len: usize, size: usize) -> (n: u64)
    ensures
        n == pages_for(len as int, size as int),
{
    if len > size {
        ((len - size) / PAGE_BYTES + 1) as u64
    } else {
        0
    }
}

/// After the growth, what is to be written fits.
pub proof fn law_grown_memory_fits(len: int, size: int)
    requires
        0 <= len,
        0 <= size,
    ensures
        len <= size + pages_for(len, size) * 65536,
{
}

/// The version triple packed in a word.
pub open spec fn version_of(packed: u32) -> (u8, u8, u8) {
    (
        (packed / 65536 % 256) as u8,
        (packed / 256 % 256) as u8,
        (packed % 256) as u8,
    )
}

/// The version triple packed in a word as `major<<16 | minor<<8 | patch`.
pub fn unpack_version(packed: u32) -> (v: (u8, u8, u8))
    ensures
        v == version_of(packed),
{
    assert((packed >> 16) & 0xFF == packed / 65536 % 256) by (bit_vector);
    assert((packed >> 8) & 0xFF == packed / 256 % 256) by (bit_vector);
    assert(packed & 0xFF == packed % 256) by (bit_vector);
    (((packed >> 16) & 0xFF) as u8, ((packed >> 8) & 0xFF) as u8, (packed & 0xFF) as u8)
}

/// A packed version comes apart into the numbers it was packed from.
pub proof fn law_version_unpacks(major: u8, minor: u8, patch: u8)
    ensures
        version_of((major * 65536 + minor * 256 + patch) as u32) == (major, minor, patch),
{
}

/// The part of a memory of `size` bytes that a name at `ptr` is looked for in.
pub fn name_window(ptr: u32, size: usize) -> (r: Result<(usize, usize), String>)
    ensures
        ptr >= size ==> (r matches Err(m) && m@ == "name pointer "@ + text::decimal(ptr as nat)
            + " out of memory bounds"@),
        ptr < size ==> r == Ok::<(usize, usize), String>(
            (ptr as usize, (if size - ptr < 256 {
                size - ptr
            } else {
                256
            }) as usize),
        ),
{
    let start: usize = ptr as usize;
    if start >= size {
        let mut m = String::new();
        push_text(&mut m, "name pointer ");
        push_decimal(&mut m, ptr as u64);
        push_text(&mut m, " out of memory bounds");
        assert(m@ =~= "name pointer "@ + text::decimal(ptr as nat) + " out of memory bounds"@);
        return Err(m);
    }
    let len: usize = if size - start < NAME_LIMIT {
        size - start
    } else {
        NAME_LIMIT
    };
    Ok((start, len))
}

/// The place of the first zero byte, or the length where there is none.
pub open spec fn zero_place(bytes: Seq<u8>, i: int) -> int
    decreases bytes.len() - i,
{
    if i >= bytes.len() || bytes[i] == 0 {
        i
    } else {
        zero_place(bytes, i + 1)
    }
}

/// The text up to the first zero byte, where there is one and the bytes before it are UTF-8.
pub open spec fn cstring(bytes: Seq<u8>) -> Option<Seq<char>> {
    let end = zero_place(bytes, 0);
    if end < bytes.len() && utf8::valid_utf8(bytes.take(end)) {
        Some(utf8::decode_utf8(bytes.take(end)))
    } else {
        None
    }
}

/// The name at a pointer into a memory.
pub open spec fn name_at(memory: Seq<u8>, ptr: u32) -> Option<Seq<char>> {
    if ptr < memory.len() {
        let end = if memory.len() - ptr < 256 {
            memory.len() as int
        } else {
            ptr + 256
        };
        cstring(memory.subrange(ptr as int, end))
    } else {
        None
    }
}

/// Read a null-terminated string from the bytes at `ptr`.
pub fn read_cstring(bytes: &[u8], ptr: u32) -> (r: Result<String, String>)
    ensures
        ({
            let end = zero_place(bytes@, 0);
            if end >= bytes@.len() {
                r matches Err(m) && m@ == "no null terminator found within 256 bytes from "@
                    + text::decimal(ptr as nat)
            } else if utf8::valid_utf8(bytes@.take(end)) {
                r matches Ok(s) && s@ == utf8::decode_utf8(bytes@.take(end))
            } else {
                r matches Err(m) && exists|why: Seq<char>|
                    m@ == #[trigger] ("validator name is not valid UTF-8: "@ + why)
            }
        }),
        r is Ok == cstring(bytes@) is Some,
        r matches Ok(s) ==> cstring(bytes@) == Some(s@),
{
    let mut kept: Vec<u8> = Vec::new();
    let mut i: usize = 0;
    while i < bytes.len() && bytes[i] != 0
        invariant
            i <= bytes@.len(),
            kept@ =~= bytes@.take(i as int),
            zero_place(bytes@, 0) == zero_place(bytes@, i as int),
        decreases bytes@.len() - i,
    {
        kept.push(bytes[i]);
        i = i + 1;
    }
    if i >= bytes.len() {
        let mut m = String::new();
        push_text(&mut m, "no null terminator found within 256 bytes from ");
        push_decimal(&mut m, ptr as u64);
        assert(m@ =~= "no null terminator found within 256 bytes from "@ + text::decimal(
            ptr as nat,
        ));
        return Err(m);
    }
    match sandbox::utf8_text(kept) {
        Ok(s) => Ok(s),
        Err(why) => {
            let m = text::prefixed("validator name is not valid UTF-8: ", why.as_str());
            assert(m@ == "validator name is not valid UTF-8: "@ + why@);
            Err(m)
        },
    }
}

/// What the answer of `is_valid` means. A call that failed finds nothing valid.
pub fn verdict(reply: &Result<u32, String>) -> (b: bool)
    ensures
        b == allowed(sandbox::reply_of(*reply)),
{
    match reply {
        Ok(v) => *v == VALID,
        Err(_) => false,
    }
}

/// What the answer of `relevance` means, as a number in Q16.16 between zero and one. A call
/// that failed finds nothing relevant.
pub fn relevance_of(reply: &Result<u32, String>) -> (q: u32)
    ensures
        q == score(sandbox::reply_of(*reply)),
{
    match reply {
        Ok(raw) => if *raw < Q16_ONE {
            *raw
        } else {
            Q16_ONE
        },
        Err(_) => 0,
    }
}

/// What is handed to a validator: the game state to write at the start of its memory, and the
/// arguments of the call.
#[derive(Debug)]
pub struct CheckRequest {
    pub state: Vec<u8>,
    pub args: (u32, u32, u32, u32),
}

/// The arena is at least as large as a game state holds.
pub open spec fn covers_arena(grid: &ArenaGrid) -> bool {
    &&& grid.cells@.len() >= ARENA_H
    &&& forall|y: int| 0 <= y < ARENA_H ==> (#[trigger] grid.cells@[y])@.len() >= ARENA_W
}

/// The request that checks an action in a game state. The depth is unused; the length counts
/// tokens.
pub fn check_request(
    action_idx: usize,
    grid: &ArenaGrid,
    player_x: i32,
    player_y: i32,
    player_id: u8,
    bombs: &[((i32, i32), u32, u32)],
) -> (r: CheckRequest)
    requires
        covers_arena(grid),
    ensures
        r.state@ == state_bytes(grid, player_x, player_y, player_id, bombs@),
        r.state@.len() <= 0x1_0000,
        sandbox::words_of(r.args) == check_args(action_idx, r.state@),
{
    let (state, tokens) = serialize_game_state(grid, player_x, player_y, player_id, bombs);
    CheckRequest { state, args: (0, action_idx as u32, 0, tokens) }
}

/// What a loaded module makes known of itself: its name and its version.
pub struct Credentials {
    pub name: String,
    pub version: (u8, u8, u8),
}

/// What each stage of loading answered. A stage that was not asked counts as failed.
pub struct LoadAnswers {
    pub engine: Result<(), String>,
    pub compile: Result<(), String>,
    pub instantiate: Result<(), String>,
    pub memory: Result<(), String>,
    pub is_valid: Result<(), String>,
    pub name_export: Result<(), String>,
    pub name_fuel: Result<(), String>,
    pub name_call: Result<u32, String>,
    pub name_read: Result<String, String>,
    pub version_export: Result<(), String>,
    pub version_fuel: Result<(), String>,
    pub version_call: Result<u32, String>,
}

impl LoadAnswers {
    /// The stage that failed first, with its error.
    pub open spec fn first_failure(self) -> Option<(LoadStage, String)> {
        if self.engine is Err {
            Some((LoadStage::Engine, self.engine->Err_0))
        } else if self.compile is Err {
            Some((LoadStage::Compile, self.compile->Err_0))
        } else if self.instantiate is Err {
            Some((LoadStage::Instantiate, self.instantiate->Err_0))
        } else if self.memory is Err {
            Some((LoadStage::Memory, self.memory->Err_0))
        } else if self.is_valid is Err {
            Some((LoadStage::IsValid, self.is_valid->Err_0))
        } else if self.name_export is Err {
            Some((LoadStage::NameExport, self.name_export->Err_0))
        } else if self.name_fuel is Err {
            Some((LoadStage::NameFuel, self.name_fuel->Err_0))
        } else if self.name_call is Err {
            Some((LoadStage::NameCall, self.name_call->Err_0))
        } else if self.name_read is Err {
            Some((LoadStage::NameRead, self.name_read->Err_0))
        } else if self.version_export is Err {
            Some((LoadStage::VersionExport, self.version_export->Err_0))
        } else if self.version_fuel is Err {
            Some((LoadStage::VersionFuel, self.version_fuel->Err_0))
        } else if self.version_call is Err {
            Some((LoadStage::VersionCall, self.version_call->Err_0))
        } else {
            None
        }
    }

    /// The first `n` stages passed.
    pub open spec fn passed(self, n: int) -> bool {
        &&& n > 0 ==> self.engine is Ok
        &&& n > 1 ==> self.compile is Ok
        &&& n > 2 ==> self.instantiate is Ok
        &&& n > 3 ==> self.memory is Ok
        &&& n > 4 ==> self.is_valid is Ok
        &&& n > 5 ==> self.name_export is Ok
        &&& n > 6 ==> self.name_fuel is Ok
        &&& n > 7 ==> self.name_call is Ok
        &&& n > 8 ==> self.name_read is Ok
        &&& n > 9 ==> self.version_export is Ok
        &&& n > 10 ==> self.version_fuel is Ok
        &&& n > 11 ==> self.version_call is Ok
    }

    /// The answers before any stage was asked.
    pub fn unasked() -> (a: LoadAnswers)
        ensures
            a.engine is Err,
            a.compile is Err,
            a.instantiate is Err,
            a.memory is Err,
            a.is_valid is Err,
            a.name_export is Err,
            a.name_fuel is Err,
            a.name_call is Err,
            a.name_read is Err,
            a.version_export is Err,
            a.version_fuel is Err,
            a.version_call is Err,
    {
        LoadAnswers {
            engine: Err(String::new()),
            compile: Err(String::new()),
            instantiate: Err(String::new()),
            memory: Err(String::new()),
            is_valid: Err(String::new()),
            name_export: Err(String::new()),
            name_fuel: Err(String::new()),
            name_call: Err(String::new()),
            name_read: Err(String::new()),
            version_export: Err(String::new()),
            version_fuel: Err(String::new()),
            version_call: Err(String::new()),
        }
    }

    /// What the answers come to: the first failed stage decides, and where none failed the
    /// module is known by the name that was read and the version that was answered.
    pub fn settle(self) -> (r: Result<Credentials, (LoadStage, String)>)
        ensures
            match self.first_failure() {
                Some(failure) => r == Err::<Credentials, (LoadStage, String)>(failure),
                None => r matches Ok(c) && c.name == self.name_read->Ok_0 && c.version
                    == version_of(self.version_call->Ok_0),
            },
    {
        match self.engine {
            Ok(()) => {},
            Err(e) => return Err((LoadStage::Engine, e)),
        }
        match self.compile {
            Ok(()) => {},
            Err(e) => return Err((LoadStage::Compile, e)),
        }
        match self.instantiate {
            Ok(()) => {},
            Err(e) => return Err((LoadStage::Instantiate, e)),
        }
        match self.memory {
            Ok(()) => {},
            Err(e) => return Err((LoadStage::Memory, e)),
        }
        match self.is_valid {
            Ok(()) => {},
            Err(e) => return Err((LoadStage::IsValid, e)),
        }
        match self.name_export {
            Ok(()) => {},
            Err(e) => return Err((LoadStage::NameExport, e)),
        }
        match self.name_fuel {
            Ok(()) => {},
            Err(e) => return Err((LoadStage::NameFuel, e)),
        }
        match self.name_call {
            Ok(_) => {},
            Err(e) => return Err((LoadStage::NameCall, e)),
        }
        let name = match self.name_read {
            Ok(name) => name,
            Err(e) => return Err((LoadStage::NameRead, e)),
        };
        match self.version_export {
            Ok(()) => {},
            Err(e) => return Err((LoadStage::VersionExport, e)),
        }
        match self.version_fuel {
            Ok(()) => {},
            Err(e) => return Err((LoadStage::VersionFuel, e)),
        }
        match self.version_call {
            Ok(packed) => Ok(Credentials { name, version: unpack_version(packed) }),
            Err(e) => Err((LoadStage::VersionCall, e)),
        }
    }
}

/// The answers are those to what was asked, stage after stage, of a module compiled from `bytes`:
/// a stage is asked where all before it passed.
pub open spec fn told(e: Seq<Event>, bytes: Seq<u8>, a: LoadAnswers) -> bool {
    let fuel = |ok: bool| Event::Fuel { amount: FUEL_PER_CALL, ok };
    &&& a.passed(1) ==> e.len() > 0 && e[0] == (Event::Compile { bytes, ok: a.compile is Ok })
    &&& a.passed(2) ==> e.len() > 1 && e[1] == (Event::Instantiate { ok: a.instantiate is Ok })
    &&& a.passed(3) ==> e.len() > 2 && e[2] == (Event::Find {
        export: "memory"@,
        found: a.memory is Ok,
    })
    &&& a.passed(4) ==> e.len() > 3 && e[3] == (Event::Find {
        export: "is_valid"@,
        found: a.is_valid is Ok,
    })
    &&& a.passed(5) ==> e.len() > 5 && (e[4] matches Event::Find { export, found: _ } && export
        == "relevance"@) && e[5] == (Event::Find { export: "name"@, found: a.name_export is Ok })
    &&& a.passed(6) ==> e.len() > 6 && e[6] == fuel(a.name_fuel is Ok)
    &&& a.passed(7) ==> e.len() > 7 && (e[7] matches Event::Call { export, args, memory: _, reply }
        && export == "name"@ && args.len() == 0 && reply == sandbox::reply_of(a.name_call))
    &&& a.passed(9) ==> e.len() > 8 && e[8] == (Event::Find {
        export: "version"@,
        found: a.version_export is Ok,
    })
    &&& a.passed(10) ==> e.len() > 9 && e[9] == fuel(a.version_fuel is Ok)
    &&& a.passed(11) ==> e.len() > 10 && (e[10] matches Event::Call {
        export,
        args,
        memory,
        reply,
    } && export == "version"@ && args.len() == 0 && reply == sandbox::reply_of(a.version_call)
        && name_at(memory, a.name_call->Ok_0) == Some((a.name_read->Ok_0)@))
}

/// A message that loading from `bytes` fails with: that of the stage that failed first.
pub open spec fn is_load_failure(bytes: Seq<u8>, m: Seq<char>) -> bool {
    exists|e: Seq<Event>, a: LoadAnswers| #[trigger]
        told(e, bytes, a) && (a.first_failure() matches Some((stage, detail)) && m == stage.text()
            + detail@)
}

/// What is asked of a module while it is loaded from `bytes`, and what its answers make of it:
/// `scored` says whether it scores actions.
pub open spec fn loaded(
    t: Seq<Event>,
    bytes: Seq<u8>,
    scored: bool,
    title: Seq<char>,
    release: (u8, u8, u8),
) -> bool {
    &&& t.len() == 11
    &&& t[0] == Event::Compile { bytes, ok: true }
    &&& t[1] == Event::Instantiate { ok: true }
    &&& t[2] == Event::Find { export: "memory"@, found: true }
    &&& t[3] == Event::Find { export: "is_valid"@, found: true }
    &&& t[4] == Event::Find { export: "relevance"@, found: scored }
    &&& t[5] == Event::Find { export: "name"@, found: true }
    &&& t[6] == Event::Fuel { amount: FUEL_PER_CALL, ok: true }
    &&& t[8] == Event::Find { export: "version"@, found: true }
    &&& t[9] == Event::Fuel { amount: FUEL_PER_CALL, ok: true }
    &&& t[7] matches Event::Call { export: first, args: none, memory: _, reply: Some(ptr) }
        && first == "name"@ && none.len() == 0
        && (t[10] matches Event::Call { export: second, args: also_none, memory, reply: Some(packed) }
        && second == "version"@ && also_none.len() == 0 && name_at(memory, ptr) == Some(title)
        && release == version_of(packed))
}

/// What comes before a call on a memory that has to grow by `pages`.
pub open spec fn prelude(pages: int) -> Seq<Event> {
    let fuel = Event::Fuel { amount: FUEL_PER_CALL, ok: true };
    if pages > 0 {
        seq![fuel, Event::Grow { pages: pages as u64, ok: true }]
    } else {
        seq![fuel]
    }
}

/// An attempt to ask an export about a game state, on a memory of `size` bytes. It ends where
/// fuel or memory is refused; otherwise the export is called with its fuel, and finds the state
/// at the start of its memory.
pub open spec fn attempted(
    e: Seq<Event>,
    export: Seq<char>,
    args: Seq<u32>,
    state: Seq<u8>,
    size: int,
) -> bool {
    let pages = pages_for(state.len() as int, size);
    ||| e == seq![Event::Fuel { amount: FUEL_PER_CALL, ok: false }]
    ||| pages > 0 && e == seq![
        Event::Fuel { amount: FUEL_PER_CALL, ok: true },
        Event::Grow { pages: pages as u64, ok: false },
    ]
    ||| e.len() > 0 && e.drop_last() == prelude(pages) && (e.last() matches Event::Call {
        export: called,
        args: given,
        memory,
        reply: _,
    } && called == export && given == args && state.is_prefix_of(memory))
}

/// The answer that an attempt ended with. There is none where no call was made or it trapped.
pub open spec fn answer(e: Seq<Event>) -> Option<u32> {
    if e.len() > 0 {
        match e.last() {
            Event::Call { export, args, memory, reply } => reply,
            _ => None,
        }
    } else {
        None
    }
}

/// The arguments of a check: the depth is unused, and the length counts tokens.
pub open spec fn check_args(action_idx: usize, state: Seq<u8>) -> Seq<u32> {
    seq![0u32, action_idx as u32, 0u32, (state.len() / 4) as u32]
}

/// The game state as a module finds it.
pub open spec fn state_bytes(
    grid: &ArenaGrid,
    x: i32,
    y: i32,
    id: u8,
    bombs: Seq<((i32, i32), u32, u32)>,
) -> Seq<u8> {
    wasm_state::tokens_bytes(wasm_state::state_values(grid, x, y, id, bombs))
}

/// What an answer to a check means.
pub open spec fn allowed(reply: Option<u32>) -> bool {
    reply == Some(VALID)
}

/// What an answer to a request for a score means, in Q16.16.
pub open spec fn score(reply: Option<u32>) -> u32 {
    match reply {
        Some(raw) => if raw < Q16_ONE {
            raw
        } else {
            Q16_ONE
        },
        None => 0,
    }
}

/// Bomber validator loaded from a WASM module.
pub struct BomberWasmPruner {
    sandbox: Sandbox,
    name: String,
    version: (u8, u8, u8),
}

impl BomberWasmPruner {
    /// The exports that a check needs were found.
    pub closed spec fn ready(self) -> bool {
        self.sandbox.has_memory() && self.sandbox.has_is_valid()
    }

    /// The module scores actions.
    pub closed spec fn scored(self) -> bool {
        self.sandbox.has_relevance()
    }

    /// What was asked of the module so far.
    pub closed spec fn trace(self) -> Seq<Event> {
        self.sandbox.trace()
    }

    /// How many bytes of memory the module has.
    pub closed spec fn size(self) -> int {
        self.sandbox.bytes().len() as int
    }

    /// The validator's name.
    pub closed spec fn title(self) -> Seq<char> {
        self.name@
    }

    /// The validator's version.
    pub closed spec fn release(self) -> (u8, u8, u8) {
        self.version
    }

    /// Nothing but the record and the memory differs between the two.
    pub open spec fn same_validator(self, other: BomberWasmPruner) -> bool {
        &&& self.ready() == other.ready()
        &&& self.scored() == other.scored()
        &&& self.title() == other.title()
        &&& self.release() == other.release()
    }

    /// What was asked since an earlier state.
    pub open spec fn asked_since(self, earlier: BomberWasmPruner) -> Seq<Event> {
        self.trace().skip(earlier.trace().len() as int)
    }

    /// Load a WASM bomber validator from bytes.
    ///
    /// Creates a sandboxed instance with fuel consumption enabled. Extracts required exports
    /// (`is_valid`, `memory`, `name`, `version`) and optional export (`relevance`).
    pub fn load(wasm_bytes: &[u8]) -> (r: Result<BomberWasmPruner, String>)
        ensures
            r matches Ok(p) ==> p.ready() && loaded(
                p.trace(),
                wasm_bytes@,
                p.scored(),
                p.title(),
                p.release(),
            ),
            r matches Err(m) ==> is_load_failure(wasm_bytes@, m@),
    {
        let mut record = Record::new();
        let (answers, asked) = ask_all(wasm_bytes, &mut record);
        assert(told(record.events(), wasm_bytes@, answers));
        match answers.settle() {
            Ok(c) => Ok(
                BomberWasmPruner { sandbox: asked.unwrap(), name: c.name, version: c.version },
            ),
            Err((stage, detail)) => Err(failed(stage, &detail)),
        }
    }

    /// Sets the fuel, and writes a game state at the start of the module's memory, which grows
    /// where needed. Says whether an export may be called.
    fn prepare(&mut self, state: &[u8]) -> (ok: bool)
        requires
            old(self).ready(),
            state@.len() <= 0x1_0000,
        ensures
            final(self).same_validator(*old(self)),
            ({
                let pages = pages_for(state@.len() as int, old(self).size());
                let e = final(self).asked_since(*old(self));
                &&& final(self).trace() == old(self).trace() + e
                &&& ok ==> e == prelude(pages) && state@.is_prefix_of(final(self).sandbox.bytes())
                &&& !ok ==> e == seq![Event::Fuel { amount: FUEL_PER_CALL, ok: false }] || (pages
                    > 0 && e == seq![
                    Event::Fuel { amount: FUEL_PER_CALL, ok: true },
                    Event::Grow { pages: pages as u64, ok: false },
                ])
            }),
    {
        let ghost before = self.sandbox.trace();
        match self.sandbox.set_fuel(FUEL_PER_CALL) {
            Ok(()) => {},
            Err(_) => {
                assert(self.sandbox.trace().skip(before.len() as int) =~= seq![
                    Event::Fuel { amount: FUEL_PER_CALL, ok: false },
                ]);
                assert(self.sandbox.trace() =~= before + self.sandbox.trace().skip(
                    before.len() as int,
                ));
                return false;
            },
        }
        let size: usize = self.sandbox.memory_size();
        let pages: u64 = extra_pages(state.len(), size);
        if pages > 0 {
            match self.sandbox.grow_memory(pages) {
                Ok(()) => {},
                Err(_) => {
                    assert(self.sandbox.trace().skip(before.len() as int) =~= seq![
                        Event::Fuel { amount: FUEL_PER_CALL, ok: true },
                        Event::Grow { pages, ok: false },
                    ]);
                    assert(self.sandbox.trace() =~= before + self.sandbox.trace().skip(
                        before.len() as int,
                    ));
                    return false;
                },
            }
        }
        proof {
            law_grown_memory_fits(state@.len() as int, size as int);
        }
        let written = self.sandbox.write_memory(state);
        assert(written is Ok);
        assert(state@.is_prefix_of(self.sandbox.bytes()));
        assert(self.sandbox.trace().skip(before.len() as int) =~= prelude(pages as int));
        assert(self.sandbox.trace() =~= before + self.sandbox.trace().skip(before.len() as int));
        true
    }

    /// Check if an action is safe given game state.
    ///
    /// Writes the game state to WASM memory and calls `is_valid`. Returns `false` if the WASM
    /// module traps or any step fails.
    pub fn is_safe_action(
        &mut self,
        action_idx: usize,
        grid: &ArenaGrid,
        player_x: i32,
        player_y: i32,
        player_id: u8,
        bombs: &[((i32, i32), u32, u32)],
    ) -> (b: bool)
        requires
            old(self).ready(),
            covers_arena(grid),
        ensures
            final(self).same_validator(*old(self)),
            ({
                let state = state_bytes(grid, player_x, player_y, player_id, bombs@);
                let e = final(self).asked_since(*old(self));
                &&& final(self).trace() == old(self).trace() + e
                &&& attempted(
                    e,
                    "is_valid"@,
                    check_args(action_idx, state),
                    state,
                    old(self).size(),
                )
                &&& b == allowed(answer(e))
            }),
    {
        let ghost before = self.sandbox.trace();
        let request = check_request(action_idx, grid, player_x, player_y, player_id, bombs);
        if !self.prepare(request.state.as_slice()) {
            return false;
        }
        let ghost prepared = self.sandbox.trace();
        let reply = self.sandbox.call_is_valid(request.args);
        proof {
            assert(self.sandbox.trace().drop_last() =~= prepared);
            lemma_attempt(before, prepared, self.sandbox.trace());
        }
        verdict(&reply)
    }

    /// Get action relevance score via WASM, in Q16.16.
    ///
    /// Calls the `relevance` export if available. Falls back to `is_valid` (zero or one) if the
    /// relevance export is missing.
    pub fn action_relevance(
        &mut self,
        action_idx: usize,
        grid: &ArenaGrid,
        player_x: i32,
        player_y: i32,
        player_id: u8,
        bombs: &[((i32, i32), u32, u32)],
    ) -> (q: u32)
        requires
            old(self).ready(),
            covers_arena(grid),
        ensures
            final(self).same_validator(*old(self)),
            q <= Q16_ONE,
            ({
                let state = state_bytes(grid, player_x, player_y, player_id, bombs@);
                let e = final(self).asked_since(*old(self));
                let args = check_args(action_idx, state);
                &&& final(self).trace() == old(self).trace() + e
                &&& old(self).scored() ==> attempted(
                    e,
                    "relevance"@,
                    args,
                    state,
                    old(self).size(),
                ) && q == score(answer(e))
                &&& !old(self).scored() ==> attempted(
                    e,
                    "is_valid"@,
                    args,
                    state,
                    old(self).size(),
                ) && q == (if allowed(answer(e)) {
                    Q16_ONE
                } else {
                    0
                })
            }),
    {
        if !self.sandbox.scores() {
            return if self.is_safe_action(
                action_idx,
                grid,
                player_x,
                player_y,
                player_id,
                bombs,
            ) {
                Q16_ONE
            } else {
                0
            };
        }
        let ghost before = self.sandbox.trace();
        let request = check_request(action_idx, grid, player_x, player_y, player_id, bombs);
        if !self.prepare(request.state.as_slice()) {
            return 0;
        }
        let ghost prepared = self.sandbox.trace();
        let reply = self.sandbox.call_relevance(request.args);
        proof {
            assert(self.sandbox.trace().drop_last() =~= prepared);
            lemma_attempt(before, prepared, self.sandbox.trace());
        }
        relevance_of(&reply)
    }

    /// Get validator name.
    pub fn name(&self) -> (s: &String)
        ensures
            s@ == self.title(),
    {
        &self.name
    }

    /// Get validator version.
    pub fn version(&self) -> (v: (u8, u8, u8))
        ensures
            v == self.release(),
    {
        self.version
    }
}

/// A module answers only with its fuel limited anew, and on a memory that holds the whole state.
pub proof fn law_answers_are_fuelled(
    e: Seq<Event>,
    export: Seq<char>,
    args: Seq<u32>,
    state: Seq<u8>,
    size: int,
)
    requires
        attempted(e, export, args, state, size),
        answer(e) is Some,
    ensures
        e[0] == (Event::Fuel { amount: FUEL_PER_CALL, ok: true }),
        e.last() matches Event::Call { export: called, args: given, memory, reply } && called
            == export && given == args && memory.take(state.len() as int) == state && reply
            == answer(e),
{
    let pages = pages_for(state.len() as int, size);
    assert(e.last() is Call);
    assert(e.drop_last() == prelude(pages));
    assert(e[0] == e.drop_last()[0]);
    let memory = e.last()->memory;
    assert(memory.take(state.len() as int) =~= state);
}

/// What was asked last ends what was asked since.
proof fn lemma_attempt(before: Seq<Event>, prepared: Seq<Event>, after: Seq<Event>)
    requires
        before.len() <= prepared.len(),
        prepared == before + prepared.skip(before.len() as int),
        after.len() == prepared.len() + 1,
        after.drop_last() == prepared,
    ensures
        after == before + after.skip(before.len() as int),
        after.skip(before.len() as int).drop_last() == prepared.skip(before.len() as int),
        after.skip(before.len() as int).last() == after.last(),
{
    assert(after.take(before.len() as int) =~= before) by {
        assert forall|i: int| 0 <= i < before.len() implies after[i] == before[i] by {
            assert(after.drop_last()[i] == prepared[i]);
            assert(prepared[i] == (before + prepared.skip(before.len() as int))[i]);
        }
    }
    assert(after =~= before + after.skip(before.len() as int));
    assert(after.skip(before.len() as int).drop_last() =~= prepared.skip(before.len() as int));
}

/// Asks stage after stage of loading a module, up to the first that fails, and notes what each
/// answered. Where none failed there is a sandbox, ready for checks.
fn ask_all(wasm_bytes: &[u8], record: &mut Record) -> (r: (LoadAnswers, Option<Sandbox>))
    requires
        old(record).events().len() == 0,
    ensures
        final(record).engine() == Some(r.0.engine is Ok),
        told(final(record).events(), wasm_bytes@, r.0),
        r.1 is Some == r.0.first_failure() is None,
        r.1 matches Some(inner) ==> inner.has_memory() && inner.has_is_valid() && inner.trace()
            == final(record).events() && loaded(
            inner.trace(),
            wasm_bytes@,
            inner.has_relevance(),
            (r.0.name_read->Ok_0)@,
            version_of(r.0.version_call->Ok_0),
        ),
{
    let mut a = LoadAnswers::unasked();
    let engine = match sandbox::make_engine(MEMORY_PAGES * PAGE_BYTES as u64, record) {
        Ok(engine) => engine,
        Err(e) => {
            a.engine = Err(e);
            return (a, None);
        },
    };
    a.engine = Ok(());
    let module = match sandbox::compile_module(&engine, wasm_bytes, record) {
        Ok(module) => module,
        Err(e) => {
            a.compile = Err(e);
            return (a, None);
        },
    };
    a.compile = Ok(());
    let mut inner = match Sandbox::instantiate(&module, record) {
        Ok(inner) => inner,
        Err(e) => {
            a.instantiate = Err(e);
            return (a, None);
        },
    };
    a.instantiate = Ok(());
    let ready: bool = ask_exports(&mut inner, &mut a);
    inner.report(record);
    if ready {
        (a, Some(inner))
    } else {
        (a, None)
    }
}

/// Asks the stages of loading that a new instance answers.
fn ask_exports(inner: &mut Sandbox, a: &mut LoadAnswers) -> (ready: bool)
    requires
        old(a).passed(3),
        old(inner).trace().len() == 2,
    ensures
        final(a).engine == old(a).engine,
        final(a).compile == old(a).compile,
        final(a).instantiate == old(a).instantiate,
        ready == final(a).first_failure() is None,
        final(inner).trace().len() >= 2,
        final(inner).trace()[0] == old(inner).trace()[0],
        final(inner).trace()[1] == old(inner).trace()[1],
        forall|bytes: Seq<u8>|
            old(inner).trace()[0] == (Event::Compile { bytes, ok: true }) && old(inner).trace()[1]
                == (Event::Instantiate { ok: true }) ==> #[trigger] told(
                final(inner).trace(),
                bytes,
                *final(a),
            ),
        ready ==> final(inner).has_memory() && final(inner).has_is_valid(),
        ready ==> final(inner).trace().len() == 11 && final(inner).trace()[4] == (Event::Find {
            export: "relevance"@,
            found: final(inner).has_relevance(),
        }),
{
    if !inner.find_memory("memory") {
        a.memory = Err(String::new());
        return false;
    }
    a.memory = Ok(());
    match inner.find_is_valid("is_valid") {
        Ok(()) => a.is_valid = Ok(()),
        Err(e) => {
            a.is_valid = Err(e);
            return false;
        },
    }
    let _scored: bool = inner.find_relevance("relevance");
    match inner.find_word("name") {
        Ok(()) => a.name_export = Ok(()),
        Err(e) => {
            a.name_export = Err(e);
            return false;
        },
    }
    match inner.set_fuel(FUEL_PER_CALL) {
        Ok(()) => a.name_fuel = Ok(()),
        Err(e) => {
            a.name_fuel = Err(e);
            return false;
        },
    }
    let ptr: u32 = match inner.call_word() {
        Ok(ptr) => ptr,
        Err(e) => {
            a.name_call = Err(e);
            return false;
        },
    };
    a.name_call = Ok(ptr);
    match read_name(inner, ptr) {
        Ok(name) => a.name_read = Ok(name),
        Err(e) => {
            a.name_read = Err(e);
            return false;
        },
    }
    match inner.find_word("version") {
        Ok(()) => a.version_export = Ok(()),
        Err(e) => {
            a.version_export = Err(e);
            return false;
        },
    }
    match inner.set_fuel(FUEL_PER_CALL) {
        Ok(()) => a.version_fuel = Ok(()),
        Err(e) => {
            a.version_fuel = Err(e);
            return false;
        },
    }
    match inner.call_word() {
        Ok(packed) => {
            a.version_call = Ok(packed);
            true
        },
        Err(e) => {
            a.version_call = Err(e);
            false
        },
    }
}

/// The message of a failure.
fn failed(stage: LoadStage, detail: &String) -> (m: String)
    ensures
        m@ == stage.text() + detail@,
{
    stage.failure(detail.as_str())
}

/// Reads the name that a pointer into the memory leads to.
fn read_name(inner: &Sandbox, ptr: u32) -> (r: Result<String, String>)
    requires
        inner.has_memory(),
    ensures
        r is Ok == name_at(inner.bytes(), ptr) is Some,
        r matches Ok(s) ==> name_at(inner.bytes(), ptr) == Some(s@),
{
    let (start, len) = match name_window(ptr, inner.memory_size()) {
        Ok(window) => window,
        Err(m) => return Err(m),
    };
    match inner.read_memory(start, len) {
        Ok(bytes) => read_cstring(bytes.as_slice(), ptr),
        Err(m) => Err(m),
    }
}

/// A memory grows only where the state does not fit, and then by no more than a page too much.
pub proof fn law_memory_grows_by_need(len: int, size: int)
    requires
        0 <= len,
        0 <= size,
    ensures
        len <= size ==> pages_for(len, size) == 0,
        len > size ==> 0 < pages_for(len, size) && (pages_for(len, size) - 1) * 65536 <= len - size,
{
}

/// A text ends before the first zero byte.
pub proof fn law_text_ends_at_the_first_zero(bytes: Seq<u8>, i: int)
    requires
        0 <= i <= bytes.len(),
    ensures
        i <= zero_place(bytes, i) <= bytes.len(),
        zero_place(bytes, i) < bytes.len() ==> bytes[zero_place(bytes, i)] == 0,
        forall|k: int| i <= k < zero_place(bytes, i) ==> #[trigger] bytes[k] != 0,
    decreases bytes.len() - i,
{
    if i < bytes.len() && bytes[i] != 0 {
        law_text_ends_at_the_first_zero(bytes, i + 1);
    }
}

/// A name of fewer than 256 bytes that a zero byte ends is read as it stands in memory, wherever it
/// stands. Without a zero byte among the first 256 there is no name.
pub proof fn law_names_are_read_from_memory(before: Seq<u8>, name: Seq<u8>, after: Seq<u8>)
    requires
        before.len() <= u32::MAX,
        forall|i: int| 0 <= i < name.len() ==> #[trigger] name[i] != 0,
    ensures
        name.len() < 256 && utf8::valid_utf8(name) ==> name_at(
            before + name + seq![0u8] + after,
            before.len() as u32,
        ) == Some(utf8::decode_utf8(name)),
        name.len() < 256 && !utf8::valid_utf8(name) ==> name_at(
            before + name + seq![0u8] + after,
            before.len() as u32,
        ) is None,
        name.len() >= 256 ==> name_at(before + name + after, before.len() as u32) is None,
        name_at(before, before.len() as u32) is None,
{
    let start = before.len() as int;
    if name.len() < 256 {
        let m = before + name + seq![0u8] + after;
        let end = if m.len() - start < 256 {
            m.len() as int
        } else {
            start + 256
        };
        let w = m.subrange(start, end);
        law_text_ends_at_the_first_zero(w, 0);
        assert(w[name.len() as int] == 0);
        assert forall|k: int| 0 <= k < name.len() implies w[k] == #[trigger] name[k] by {}
        let z = zero_place(w, 0);
        if z < name.len() {
            assert(w[z] == name[z]);
        }
        assert(w.take(z) =~= name);
    } else {
        let m = before + name + after;
        let w = m.subrange(start, start + 256);
        law_text_ends_at_the_first_zero(w, 0);
        let z = zero_place(w, 0);
        if z < 256 {
            assert(w[z] == name[z]);
        }
    }
}

impl LoadAnswers {
    /// Loading fails at the first stage that fails, with the error of that stage, in the order in
    /// which the stages are asked. It fails at none exactly when all passed.
    pub proof fn law_first_failure_is_told(self)
        ensures
            self.first_failure() is None == self.passed(12),
            self.engine matches Err(m) ==> self.first_failure() == Some((LoadStage::Engine, m)),
            self.passed(1) ==> (self.compile matches Err(m) ==> self.first_failure() == Some(
                (LoadStage::Compile, m),
            )),
            self.passed(2) ==> (self.instantiate matches Err(m) ==> self.first_failure() == Some(
                (LoadStage::Instantiate, m),
            )),
            self.passed(3) ==> (self.memory matches Err(m) ==> self.first_failure() == Some(
                (LoadStage::Memory, m),
            )),
            self.passed(4) ==> (self.is_valid matches Err(m) ==> self.first_failure() == Some(
                (LoadStage::IsValid, m),
            )),
            self.passed(5) ==> (self.name_export matches Err(m) ==> self.first_failure() == Some(
                (LoadStage::NameExport, m),
            )),
            self.passed(6) ==> (self.name_fuel matches Err(m) ==> self.first_failure() == Some(
                (LoadStage::NameFuel, m),
            )),
            self.passed(7) ==> (self.name_call matches Err(m) ==> self.first_failure() == Some(
                (LoadStage::NameCall, m),
            )),
            self.passed(8) ==> (self.name_read matches Err(m) ==> self.first_failure() == Some(
                (LoadStage::NameRead, m),
            )),
            self.passed(9) ==> (self.version_export matches Err(m) ==> self.first_failure() == Some(
                (LoadStage::VersionExport, m),
            )),
            self.passed(10) ==> (self.version_fuel matches Err(m) ==> self.first_failure() == Some(
                (LoadStage::VersionFuel, m),
            )),
            self.passed(11) ==> (self.version_call matches Err(m) ==> self.first_failure() == Some(
                (LoadStage::VersionCall, m),
            )),
    {
    }
}

/// A check asks about one action and says how many tokens of four bytes the state has.
pub proof fn law_checks_count_tokens(
    action_idx: usize,
    grid: &ArenaGrid,
    x: i32,
    y: i32,
    id: u8,
    bombs: Seq<((i32, i32), u32, u32)>,
)
    ensures
        ({
            let state = state_bytes(grid, x, y, id, bombs);
            let args = check_args(action_idx, state);
            &&& args.len() == 4
            &&& args[0] == 0 && args[2] == 0
            &&& action_idx <= u32::MAX ==> args[1] == action_idx
            &&& 4 * args[3] == state.len()
            &&& args[3] == wasm_state::state_values(grid, x, y, id, bombs).len()
        }),
{
    let values = wasm_state::state_values(grid, x, y, id, bombs);
    wasm_state::law_token_layout(values);
    wasm_state::law_state_layout(grid, x, y, id, bombs, 0, 0, 0);
}

/// An action is allowed by the answer one and by no other, nor by none. A score is the answer, one
/// where the answer is larger, and zero where there is none.
pub proof fn law_answers_decide(raw: u32, more: u32)
    ensures
        allowed(Some(raw)) == (raw == 1),
        !allowed(None),
        score(None) == 0,
        score(Some(raw)) <= 65536,
        raw <= 65536 ==> score(Some(raw)) == raw,
        raw <= more ==> score(Some(raw)) <= score(Some(more)),
{
}

/// Before a call the fuel is set to ten thousand, and then the memory grows by the pages that are
/// missing.
pub proof fn law_calls_are_prepared(pages: int)
    requires
        0 <= pages <= u64::MAX,
    ensures
        prelude(pages)[0] == (Event::Fuel { amount: 10_000, ok: true }),
        pages == 0 ==> prelude(pages).len() == 1,
        pages > 0 ==> prelude(pages).len() == 2 && (prelude(pages)[1] matches Event::Grow {
            pages: more,
            ok,
        } && more == pages && ok),
{
}

} // verus!
