//! The sandbox that validator modules run in: one module instance of wasmtime with its store.
//!
//! A module keeps state of its own from call to call, so what a call returns is no function of
//! its arguments. A sandbox therefore records what was asked of it and what came back: the
//! contracts of its users say which record they add, and what they make of the answers in it.

use vstd::prelude::*;
use vstd::utf8;

verus! {

/// A wasmtime engine.
#[verifier::external_type_specification]
#[verifier::external_body]
pub struct ExEngine(wasmtime::Engine);

/// A compiled module.
#[verifier::external_type_specification]
#[verifier::external_body]
pub struct ExModule(wasmtime::Module);

/// The store of an instance.
#[verifier::external_type_specification]
#[verifier::external_body]
#[verifier::reject_recursive_types(T)]
pub struct ExStore<T: 'static>(wasmtime::Store<T>);

/// An instance of a module.
#[verifier::external_type_specification]
#[verifier::external_body]
pub struct ExInstance(wasmtime::Instance);

/// A linear memory.
#[verifier::external_type_specification]
#[verifier::external_body]
pub struct ExMemory(wasmtime::Memory);

/// An exported function of a known signature.
#[verifier::external_type_specification]
#[verifier::external_body]
#[verifier::reject_recursive_types(In)]
#[verifier::reject_recursive_types(Out)]
pub struct ExTypedFunc<In, Out>(wasmtime::TypedFunc<In, Out>);

/// The bytes of a linear memory in its store.
pub uninterp spec fn linear_memory(store: wasmtime::Store<()>, memory: wasmtime::Memory) -> Seq<u8>;

/// What was asked of a sandbox, and what came back.
pub enum Event {
    /// The bytes of a module were compiled.
    Compile { bytes: Seq<u8>, ok: bool },
    /// The compiled module was instantiated.
    Instantiate { ok: bool },
    /// An export was looked up.
    Find { export: Seq<char>, found: bool },
    /// The fuel for the next call was set.
    Fuel { amount: u64, ok: bool },
    /// The memory was asked to grow.
    Grow { pages: u64, ok: bool },
    /// An export was called, on this memory. There is no reply where it trapped.
    Call { export: Seq<char>, args: Seq<u32>, memory: Seq<u8>, reply: Option<u32> },
}

/// An instance of a module with the exports found in it so far. All of them belong to its own
/// store.
struct Parts {
    store: wasmtime::Store<()>,
    instance: wasmtime::Instance,
    memory: Option<wasmtime::Memory>,
    is_valid: Option<wasmtime::TypedFunc<(u32, u32, u32, u32), u32>>,
    relevance: Option<wasmtime::TypedFunc<(u32, u32, u32, u32), u32>>,
    word: Option<wasmtime::TypedFunc<(), u32>>,
}

impl Parts {
    /// The bytes of the memory that was found.
    spec fn bytes(self) -> Seq<u8> {
        linear_memory(self.store, self.memory->0)
    }

    /// The same exports are found in both, but for the function without parameters.
    spec fn same_finds(self, other: Parts) -> bool {
        &&& self.memory is Some == other.memory is Some
        &&& self.is_valid is Some == other.is_valid is Some
        &&& self.relevance is Some == other.relevance is Some
    }

    /// `wasmtime::Instance::get_memory`: looks up an exported memory. Whether there is one is up
    /// to the module.
    #[verifier::external_body]
    fn find_memory(&mut self, name: &str) -> (found: bool)
        ensures
            final(self).memory is Some == found,
            final(self).is_valid is Some == old(self).is_valid is Some,
            final(self).relevance is Some == old(self).relevance is Some,
            final(self).word is Some == old(self).word is Some,
    {
        self.memory = self.instance.get_memory(&mut self.store, name);
        self.memory.is_some()
    }

    /// `wasmtime::Instance::get_typed_func`: looks up the exported function that checks an
    /// action. Whether there is one is up to the module; of the error, its text is kept. The
    /// memory is left as it is.
    #[verifier::external_body]
    fn find_is_valid(&mut self, name: &str) -> (r: Result<(), String>)
        ensures
            r is Ok ==> final(self).is_valid is Some,
            final(self).memory is Some == old(self).memory is Some,
            final(self).relevance is Some == old(self).relevance is Some,
            final(self).word is Some == old(self).word is Some,
            final(self).bytes() == old(self).bytes(),
    {
        let f = self.instance.get_typed_func(&mut self.store, name).map_err(|e| e.to_string())?;
        self.is_valid = Some(f);
        Ok(())
    }

    /// `wasmtime::Instance::get_typed_func`: looks up the exported function that scores an
    /// action. Whether there is one is up to the module. The memory is left as it is.
    #[verifier::external_body]
    fn find_relevance(&mut self, name: &str) -> (found: bool)
        ensures
            final(self).relevance is Some == found,
            final(self).memory is Some == old(self).memory is Some,
            final(self).is_valid is Some == old(self).is_valid is Some,
            final(self).word is Some == old(self).word is Some,
            final(self).bytes() == old(self).bytes(),
    {
        self.relevance = self.instance.get_typed_func(&mut self.store, name).ok();
        self.relevance.is_some()
    }

    /// `wasmtime::Instance::get_typed_func`: looks up an exported function without parameters
    /// that returns a word. Whether there is one is up to the module; of the error, its text is
    /// kept. The memory is left as it is.
    #[verifier::external_body]
    fn find_word(&mut self, name: &str) -> (r: Result<(), String>)
        ensures
            r is Ok ==> final(self).word is Some,
            final(self).same_finds(*old(self)),
            final(self).bytes() == old(self).bytes(),
    {
        let f = self.instance.get_typed_func(&mut self.store, name).map_err(|e| e.to_string())?;
        self.word = Some(f);
        Ok(())
    }

    /// `wasmtime::Store::set_fuel`: the fuel that the next call may use. It fails on a store
    /// whose engine counts no fuel; of the error, its text is kept. The memory is left as it is.
    #[verifier::external_body]
    fn set_fuel(&mut self, fuel: u64) -> (r: Result<(), String>)
        ensures
            final(self).same_finds(*old(self)),
            final(self).word is Some == old(self).word is Some,
            final(self).bytes() == old(self).bytes(),
    {
        self.store.set_fuel(fuel).map_err(|e| e.to_string())
    }

    /// `wasmtime::TypedFunc::call` of the function without parameters. What it returns and what
    /// it does to the memory is up to the module; of a trap, the text is kept.
    #[verifier::external_body]
    fn call_word(&mut self) -> (r: Result<u32, String>)
        requires
            old(self).word is Some,
        ensures
            final(self).same_finds(*old(self)),
            final(self).word is Some,
    {
        self.word.as_ref().unwrap().call(&mut self.store, ()).map_err(|e| e.to_string())
    }

    /// `wasmtime::TypedFunc::call` of the function that checks an action. What it returns and
    /// what it does to the memory is up to the module; of a trap, the text is kept.
    #[verifier::external_body]
    fn call_is_valid(&mut self, args: (u32, u32, u32, u32)) -> (r: Result<u32, String>)
        requires
            old(self).is_valid is Some,
        ensures
            final(self).same_finds(*old(self)),
            final(self).word is Some == old(self).word is Some,
    {
        self.is_valid.as_ref().unwrap().call(&mut self.store, args).map_err(|e| e.to_string())
    }

    /// `wasmtime::TypedFunc::call` of the function that scores an action. What it returns and
    /// what it does to the memory is up to the module; of a trap, the text is kept.
    #[verifier::external_body]
    fn call_relevance(&mut self, args: (u32, u32, u32, u32)) -> (r: Result<u32, String>)
        requires
            old(self).relevance is Some,
        ensures
            final(self).same_finds(*old(self)),
            final(self).word is Some == old(self).word is Some,
    {
        self.relevance.as_ref().unwrap().call(&mut self.store, args).map_err(|e| e.to_string())
    }

    /// `wasmtime::Memory::data_size`: how many bytes the memory has.
    #[verifier::external_body]
    fn memory_size(&self) -> (n: usize)
        requires
            self.memory is Some,
        ensures
            n == linear_memory(self.store, self.memory->0).len(),
    {
        self.memory.unwrap().data_size(&self.store)
    }

    /// `wasmtime::Memory::grow`: adds pages of 64 KiB after the bytes that are there, which it
    /// keeps, or fails and changes nothing. Whether the memory can grow is up to the machine and
    /// the module's limits; of the error, its text is kept. Nothing is said of a growth that no
    /// address space holds.
    #[verifier::external_body]
    fn grow_memory(&mut self, pages: u64) -> (r: Result<(), String>)
        requires
            old(self).memory is Some,
        ensures
            final(self).same_finds(*old(self)),
            final(self).word is Some == old(self).word is Some,
            r is Err ==> final(self).bytes() == old(self).bytes(),
            r is Ok ==> old(self).bytes().is_prefix_of(final(self).bytes()),
            r is Ok && old(self).bytes().len() + (pages + 1) * 65536 <= usize::MAX
                ==> final(self).bytes().len() == old(self).bytes().len() + pages * 65536,
    {
        self.memory.unwrap().grow(&mut self.store, pages).map(|_| ()).map_err(|e| e.to_string())
    }

    /// `wasmtime::Memory::write` at the start of the memory: puts the bytes there where they
    /// fit, and changes nothing where they do not.
    #[verifier::external_body]
    fn write_memory(&mut self, data: &[u8]) -> (r: Result<(), String>)
        requires
            old(self).memory is Some,
        ensures
            final(self).same_finds(*old(self)),
            final(self).word is Some == old(self).word is Some,
            r is Ok == (data@.len() <= old(self).bytes().len()),
            r is Ok ==> final(self).bytes() == data@ + old(self).bytes().skip(data@.len() as int),
            r is Err ==> final(self).bytes() == old(self).bytes(),
    {
        self.memory.unwrap().write(&mut self.store, 0, data).map_err(|e| e.to_string())
    }

    /// `wasmtime::Memory::read`: the bytes from `start` on, where the memory has as many.
    #[verifier::external_body]
    fn read_memory(&self, start: usize, len: usize) -> (r: Result<Vec<u8>, String>)
        requires
            self.memory is Some,
        ensures
            r is Ok == (start + len <= self.bytes().len()),
            r matches Ok(v) ==> v@ == self.bytes().subrange(start as int, start + len),
    {
        let mut bytes = vec![0u8; len];
        self.memory.unwrap().read(&self.store, start, &mut bytes).map_err(|e| e.to_string())?;
        Ok(bytes)
    }
}

/// `wasmtime::Engine::new` with fuel consumption switched on. A linear memory is given address
/// space for `reserved` bytes before it has to be moved to grow, which changes no result of a
/// module. Whether an engine can be made depends on the machine; of the error, its text is kept.
#[verifier::external_body]
fn new_engine(reserved: u64) -> (r: Result<wasmtime::Engine, String>) {
    let mut config = wasmtime::Config::new();
    config.consume_fuel(true).memory_reservation(reserved);
    wasmtime::Engine::new(&config).map_err(|e| e.to_string())
}

/// `wasmtime::Module::new`: compiles the bytes of a module. Whether it compiles depends on the
/// engine's target as well as on the bytes; of the error, its text is kept.
#[verifier::external_body]
fn compile(engine: &wasmtime::Engine, bytes: &[u8]) -> (r: Result<
    wasmtime::Module,
    String,
>) {
    wasmtime::Module::new(engine, bytes).map_err(|e| e.to_string())
}

/// `wasmtime::Linker::instantiate` of a linker without imports, in a new store. No export is
/// looked up yet. A store starts without fuel, so a start function cannot run on.
#[verifier::external_body]
fn instance_of(module: &wasmtime::Module) -> (r: Result<Parts, String>)
    ensures
        r matches Ok(p) ==> p.memory is None && p.is_valid is None && p.relevance is None
            && p.word is None,
{
    let mut store = wasmtime::Store::new(module.engine(), ());
    let instance = wasmtime::Linker::new(module.engine())
        .instantiate(&mut store, module)
        .map_err(|e| e.to_string())?;
    Ok(Parts { store, instance, memory: None, is_valid: None, relevance: None, word: None })
}

/// `std::string::String::from_utf8`: the text of the bytes where they are UTF-8, an error where
/// they are not. Of the error, its text is kept, of which nothing is said.
#[verifier::external_body]
pub(crate) fn utf8_text(bytes: Vec<u8>) -> (r: Result<String, String>)
    ensures
        r is Ok == utf8::valid_utf8(bytes@),
        r matches Ok(s) ==> s@ == utf8::decode_utf8(bytes@),
{
    String::from_utf8(bytes).map_err(|e| e.to_string())
}

/// The value of a reply, if there is one.
pub open spec fn reply_of(r: Result<u32, String>) -> Option<u32> {
    match r {
        Ok(v) => Some(v),
        Err(_) => None,
    }
}

/// The arguments of a check, one by one.
pub open spec fn words_of(args: (u32, u32, u32, u32)) -> Seq<u32> {
    seq![args.0, args.1, args.2, args.3]
}

/// The record of what was asked while there is no sandbox that keeps it, and of whether there is
/// an engine.
pub(crate) struct Record {
    engine: Ghost<Option<bool>>,
    events: Ghost<Seq<Event>>,
}

impl Record {
    /// What was asked so far.
    pub closed spec fn events(self) -> Seq<Event> {
        self.events@
    }

    /// Whether an engine was made, if one was asked for.
    pub closed spec fn engine(self) -> Option<bool> {
        self.engine@
    }

    /// A record of nothing.
    pub(crate) fn new() -> (r: Record)
        ensures
            r.engine() is None,
            r.events() == Seq::<Event>::empty(),
    {
        let engine: Ghost<Option<bool>> = Ghost(None);
        let events: Ghost<Seq<Event>> = Ghost(Seq::empty());
        Record { engine, events }
    }
}

/// Makes an engine.
pub(crate) fn make_engine(reserved: u64, record: &mut Record) -> (r: Result<
    wasmtime::Engine,
    String,
>)
    ensures
        final(record).engine() == Some(r is Ok),
        final(record).events() == old(record).events(),
{
    let r = new_engine(reserved);
    record.engine = Ghost(Some(r is Ok));
    r
}

/// Compiles the bytes of a module.
pub(crate) fn compile_module(
    engine: &wasmtime::Engine,
    bytes: &[u8],
    record: &mut Record,
) -> (r: Result<wasmtime::Module, String>)
    ensures
        final(record).engine() == old(record).engine(),
        final(record).events() == old(record).events().push(
            Event::Compile { bytes: bytes@, ok: r is Ok },
        ),
{
    let r = compile(engine, bytes);
    record.events = Ghost(record.events@.push(Event::Compile { bytes: bytes@, ok: r is Ok }));
    r
}

/// An instance of a module, with the record of what was asked of it.
pub struct Sandbox {
    parts: Parts,
    word_export: Ghost<Seq<char>>,
    trace: Ghost<Seq<Event>>,
}

impl Sandbox {
    /// What was asked so far.
    pub closed spec fn trace(self) -> Seq<Event> {
        self.trace@
    }

    /// The bytes of the linear memory.
    pub closed spec fn bytes(self) -> Seq<u8> {
        self.parts.bytes()
    }

    /// The linear memory was found.
    pub closed spec fn has_memory(self) -> bool {
        self.parts.memory is Some
    }

    /// The function that checks an action was found.
    pub closed spec fn has_is_valid(self) -> bool {
        self.parts.is_valid is Some
    }

    /// The function that scores an action was found.
    pub closed spec fn has_relevance(self) -> bool {
        self.parts.relevance is Some
    }

    /// The function without parameters that was found last, by its name.
    pub closed spec fn word(self) -> Option<Seq<char>> {
        if self.parts.word is Some {
            Some(self.word_export@)
        } else {
            None
        }
    }

    /// The same exports for checks are found in both.
    pub open spec fn same_exports(self, other: Sandbox) -> bool {
        &&& self.has_memory() == other.has_memory()
        &&& self.has_is_valid() == other.has_is_valid()
        &&& self.has_relevance() == other.has_relevance()
    }

    /// A new instance of a module, which carries the record on. No export was looked up.
    pub(crate) fn instantiate(module: &wasmtime::Module, record: &mut Record) -> (r: Result<
        Sandbox,
        String,
    >)
        ensures
            final(record).engine() == old(record).engine(),
            final(record).events() == old(record).events().push(
                Event::Instantiate { ok: r is Ok },
            ),
            r matches Ok(s) ==> s.trace() == final(record).events() && !s.has_memory()
                && !s.has_is_valid() && !s.has_relevance() && s.word() is None,
    {
        Self::opened(instance_of(module), record)
    }

    /// A sandbox around the instance that instantiation gave. Where it gave none, its error is
    /// passed on.
    fn opened(made: Result<Parts, String>, record: &mut Record) -> (r: Result<Sandbox, String>)
        ensures
            final(record).engine() == old(record).engine(),
            final(record).events() == old(record).events().push(
                Event::Instantiate { ok: made is Ok },
            ),
            match made {
                Ok(parts) => r matches Ok(s) && s.parts == parts && s.trace()
                    == final(record).events(),
                Err(e) => r == Err::<Sandbox, String>(e),
            },
    {
        record.events = Ghost(record.events@.push(Event::Instantiate { ok: made is Ok }));
        match made {
            Ok(parts) => {
                let none: Ghost<Seq<char>> = Ghost(Seq::empty());
                let trace: Ghost<Seq<Event>> = Ghost(record.events@);
                Ok(Sandbox { parts, word_export: none, trace })
            },
            Err(e) => Err(e),
        }
    }

    /// Brings a record up to date.
    pub(crate) fn report(&self, record: &mut Record)
        ensures
            final(record).engine() == old(record).engine(),
            final(record).events() == self.trace(),
    {
        record.events = Ghost(self.trace@);
    }

    /// Whether the function that scores an action was found.
    pub fn scores(&self) -> (b: bool)
        ensures
            b == self.has_relevance(),
    {
        self.parts.relevance.is_some()
    }

    /// Looks up the memory.
    pub(crate) fn find_memory(&mut self, name: &str) -> (found: bool)
        ensures
            final(self).has_memory() == found,
            final(self).has_is_valid() == old(self).has_is_valid(),
            final(self).has_relevance() == old(self).has_relevance(),
            final(self).word() == old(self).word(),
            final(self).trace() == old(self).trace().push(Event::Find { export: name@, found }),
    {
        let found: bool = self.parts.find_memory(name);
        self.trace = Ghost(self.trace@.push(Event::Find { export: name@, found }));
        found
    }

    /// Looks up the function that checks an action.
    pub(crate) fn find_is_valid(&mut self, name: &str) -> (r: Result<(), String>)
        ensures
            r is Ok ==> final(self).has_is_valid(),
            final(self).has_memory() == old(self).has_memory(),
            final(self).has_relevance() == old(self).has_relevance(),
            final(self).word() == old(self).word(),
            final(self).bytes() == old(self).bytes(),
            final(self).trace() == old(self).trace().push(
                Event::Find { export: name@, found: r is Ok },
            ),
    {
        let r = self.parts.find_is_valid(name);
        self.trace = Ghost(self.trace@.push(Event::Find { export: name@, found: r is Ok }));
        r
    }

    /// Looks up the function that scores an action.
    pub(crate) fn find_relevance(&mut self, name: &str) -> (found: bool)
        ensures
            final(self).has_relevance() == found,
            final(self).has_memory() == old(self).has_memory(),
            final(self).has_is_valid() == old(self).has_is_valid(),
            final(self).word() == old(self).word(),
            final(self).bytes() == old(self).bytes(),
            final(self).trace() == old(self).trace().push(Event::Find { export: name@, found }),
    {
        let found: bool = self.parts.find_relevance(name);
        self.trace = Ghost(self.trace@.push(Event::Find { export: name@, found }));
        found
    }

    /// Looks up a function without parameters.
    pub(crate) fn find_word(&mut self, name: &str) -> (r: Result<(), String>)
        ensures
            r is Ok ==> final(self).word() == Some(name@),
            final(self).same_exports(*old(self)),
            final(self).bytes() == old(self).bytes(),
            final(self).trace() == old(self).trace().push(
                Event::Find { export: name@, found: r is Ok },
            ),
    {
        let r = self.parts.find_word(name);
        self.word_export = Ghost(name@);
        self.trace = Ghost(self.trace@.push(Event::Find { export: name@, found: r is Ok }));
        r
    }

    /// Sets the fuel for the next call.
    pub(crate) fn set_fuel(&mut self, fuel: u64) -> (r: Result<(), String>)
        ensures
            final(self).same_exports(*old(self)),
            final(self).word() == old(self).word(),
            final(self).bytes() == old(self).bytes(),
            final(self).trace() == old(self).trace().push(
                Event::Fuel { amount: fuel, ok: r is Ok },
            ),
    {
        let r = self.parts.set_fuel(fuel);
        self.trace = Ghost(self.trace@.push(Event::Fuel { amount: fuel, ok: r is Ok }));
        r
    }

    /// Calls the function without parameters.
    pub(crate) fn call_word(&mut self) -> (r: Result<u32, String>)
        requires
            old(self).word() is Some,
        ensures
            final(self).same_exports(*old(self)),
            final(self).word() == old(self).word(),
            final(self).trace() == old(self).trace().push(
                Event::Call {
                    export: old(self).word()->0,
                    args: seq![],
                    memory: old(self).bytes(),
                    reply: reply_of(r),
                },
            ),
    {
        let ghost memory = self.bytes();
        let r = self.parts.call_word();
        self.trace = Ghost(
            self.trace@.push(
                Event::Call {
                    export: self.word_export@,
                    args: seq![],
                    memory,
                    reply: reply_of(r),
                },
            ),
        );
        r
    }

    /// Calls the function that checks an action.
    pub(crate) fn call_is_valid(&mut self, args: (u32, u32, u32, u32)) -> (r: Result<u32, String>)
        requires
            old(self).has_is_valid(),
        ensures
            final(self).same_exports(*old(self)),
            final(self).trace() == old(self).trace().push(
                Event::Call {
                    export: "is_valid"@,
                    args: words_of(args),
                    memory: old(self).bytes(),
                    reply: reply_of(r),
                },
            ),
    {
        let ghost memory = self.bytes();
        let r = self.parts.call_is_valid(args);
        self.trace = Ghost(
            self.trace@.push(
                Event::Call {
                    export: "is_valid"@,
                    args: words_of(args),
                    memory,
                    reply: reply_of(r),
                },
            ),
        );
        r
    }

    /// Calls the function that scores an action.
    pub(crate) fn call_relevance(&mut self, args: (u32, u32, u32, u32)) -> (r: Result<u32, String>)
        requires
            old(self).has_relevance(),
        ensures
            final(self).same_exports(*old(self)),
            final(self).trace() == old(self).trace().push(
                Event::Call {
                    export: "relevance"@,
                    args: words_of(args),
                    memory: old(self).bytes(),
                    reply: reply_of(r),
                },
            ),
    {
        let ghost memory = self.bytes();
        let r = self.parts.call_relevance(args);
        self.trace = Ghost(
            self.trace@.push(
                Event::Call {
                    export: "relevance"@,
                    args: words_of(args),
                    memory,
                    reply: reply_of(r),
                },
            ),
        );
        r
    }

    /// How many bytes the memory has.
    pub(crate) fn memory_size(&self) -> (n: usize)
        requires
            self.has_memory(),
        ensures
            n == self.bytes().len(),
    {
        self.parts.memory_size()
    }

    /// Asks the memory to grow.
    pub(crate) fn grow_memory(&mut self, pages: u64) -> (r: Result<(), String>)
        requires
            old(self).has_memory(),
        ensures
            final(self).same_exports(*old(self)),
            r is Err ==> final(self).bytes() == old(self).bytes(),
            r is Ok ==> old(self).bytes().is_prefix_of(final(self).bytes()),
            r is Ok && old(self).bytes().len() + (pages + 1) * 65536 <= usize::MAX
                ==> final(self).bytes().len() == old(self).bytes().len() + pages * 65536,
            final(self).trace() == old(self).trace().push(Event::Grow { pages, ok: r is Ok }),
    {
        let r = self.parts.grow_memory(pages);
        self.trace = Ghost(self.trace@.push(Event::Grow { pages, ok: r is Ok }));
        r
    }

    /// Writes at the start of the memory.
    pub(crate) fn write_memory(&mut self, data: &[u8]) -> (r: Result<(), String>)
        requires
            old(self).has_memory(),
        ensures
            final(self).same_exports(*old(self)),
            r is Ok == (data@.len() <= old(self).bytes().len()),
            r is Ok ==> final(self).bytes() == data@ + old(self).bytes().skip(data@.len() as int),
            r is Err ==> final(self).bytes() == old(self).bytes(),
            final(self).trace() == old(self).trace(),
    {
        self.parts.write_memory(data)
    }

    /// Reads bytes of the memory.
    pub(crate) fn read_memory(&self, start: usize, len: usize) -> (r: Result<Vec<u8>, String>)
        requires
            self.has_memory(),
        ensures
            r is Ok == (start + len <= self.bytes().len()),
            r matches Ok(v) ==> v@ == self.bytes().subrange(start as int, start + len),
    {
        self.parts.read_memory(start, len)
    }
}

} // verus!
