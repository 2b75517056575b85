use crate::ident::Name;
use crate::text::decimal;
use crate::text::decimal_string;
use crate::text::is_ident_tail;
use crate::text::is_identifier;
use crate::text::lemma_decimal_digits;
use crate::text::lemma_decimal_value;
use crate::text::lemma_number_field;
use crate::text::lemma_identifier_append;
use crate::text::push_decimal;
use vstd::prelude::*;
use vstd::string::*;

verus! {

/// The number of a processor core.
pub type Core = u8;

/// The function or task that a piece of generated code runs in.
pub enum Context<'a> {
    /// A task bound to an interrupt or an exception.
    HardwareTask(&'a Name),
    /// The idle function of a core.
    Idle(Core),
    /// The initialization function of a core.
    Init(Core),
    /// A task started by `spawn` or `schedule`.
    SoftwareTask(&'a Name),
}

/// What the names of an application rest on: the names of the
/// initialization and idle functions, by core.
pub struct App {
    pub inits: Vec<Option<Name>>,
    pub idles: Vec<Option<Name>>,
}

impl App {
    /// Whether `core` has an initialization function.
    pub open spec fn has_init(&self, core: Core) -> bool {
        core < self.inits@.len() && self.inits@[core as int] is Some
    }

    /// Whether `core` has an idle function.
    pub open spec fn has_idle(&self, core: Core) -> bool {
        core < self.idles@.len() && self.idles@[core as int] is Some
    }

    /// Whether the application names the function that `ctxt` stands for.
    pub open spec fn defines(&self, ctxt: Context) -> bool {
        match ctxt {
            Context::Init(core) => self.has_init(core),
            Context::Idle(core) => self.has_idle(core),
            Context::HardwareTask(_) | Context::SoftwareTask(_) => true,
        }
    }

    /// The name of the function that `ctxt` stands for.
    pub open spec fn context_name(&self, ctxt: Context) -> Seq<char> {
        match ctxt {
            Context::Init(core) => self.inits@[core as int]->0@,
            Context::Idle(core) => self.idles@[core as int]->0@,
            Context::HardwareTask(name) | Context::SoftwareTask(name) => name@,
        }
    }

    /// Decides whether the application names the function that `ctxt`
    /// stands for.
    pub fn is_defined(&self, ctxt: &Context) -> (r: bool)
        ensures
            r == self.defines(*ctxt),
    {
        match ctxt {
            Context::Init(core) => {
                (*core as usize) < self.inits.len() && self.inits[*core as usize].is_some()
            },
            Context::Idle(core) => {
                (*core as usize) < self.idles.len() && self.idles[*core as usize].is_some()
            },
            Context::HardwareTask(_) => true,
            Context::SoftwareTask(_) => true,
        }
    }

    /// The name of the function that `ctxt` stands for.
    pub fn name_of<'a>(&'a self, ctxt: &Context<'a>) -> (r: &'a Name)
        requires
            self.defines(*ctxt),
        ensures
            r@ == self.context_name(*ctxt),
    {
        match ctxt {
            Context::Init(core) => self.inits[*core as usize].as_ref().unwrap(),
            Context::Idle(core) => self.idles[*core as usize].as_ref().unwrap(),
            Context::HardwareTask(name) => name,
            Context::SoftwareTask(name) => name,
        }
    }
}

/// `task`, `_S`, the sender's number, and `suffix`.
pub open spec fn per_sender_name(task: Seq<char>, sender: Core, suffix: Seq<char>) -> Seq<char> {
    task + "_S"@ + decimal(sender as nat) + suffix
}

/// `R`, the receiver's number, `_P`, the priority, `_S`, the sender's
/// number, and `suffix`.
pub open spec fn per_queue_name(
    receiver: Core,
    priority: u8,
    sender: Core,
    suffix: Seq<char>,
) -> Seq<char> {
    "R"@ + decimal(receiver as nat) + "_P"@ + decimal(priority as nat) + "_S"@ + decimal(
        sender as nat,
    ) + suffix
}

/// `prefix` and the core's number.
pub open spec fn per_core_name(prefix: Seq<char>, core: Core) -> Seq<char> {
    prefix + decimal(core as nat)
}

/// `prefix`, the task's name, `_S`, and the sender's number.
pub open spec fn per_call_name(prefix: Seq<char>, task: Seq<char>, sender: Core) -> Seq<char> {
    prefix + task + "_S"@ + decimal(sender as nat)
}

/// Names made for the cores with one prefix tell the cores apart.
pub proof fn lemma_per_core_names_differ(prefix: Seq<char>, a: Core, b: Core)
    requires
        per_core_name(prefix, a) == per_core_name(prefix, b),
    ensures
        a == b,
{
    let da = decimal(a as nat);
    let db = decimal(b as nat);
    assert(da =~= (prefix + da).skip(prefix.len() as int));
    assert(db =~= (prefix + db).skip(prefix.len() as int));
    lemma_decimal_value(a as nat);
    lemma_decimal_value(b as nat);
}

/// Names made for the queues with one suffix tell the queues apart: two
/// queues with the same name have the same receiver, the same priority and
/// the same sender.
pub proof fn lemma_per_queue_names_differ(
    suffix: Seq<char>,
    receiver_a: Core,
    priority_a: u8,
    sender_a: Core,
    receiver_b: Core,
    priority_b: u8,
    sender_b: Core,
)
    requires
        per_queue_name(receiver_a, priority_a, sender_a, suffix) == per_queue_name(
            receiver_b,
            priority_b,
            sender_b,
            suffix,
        ),
    ensures
        receiver_a == receiver_b,
        priority_a == priority_b,
        sender_a == sender_b,
{
    reveal_strlit("R");
    reveal_strlit("_P");
    reveal_strlit("_S");
    let ga = "R"@ + decimal(receiver_a as nat) + "_P"@;
    let gb = "R"@ + decimal(receiver_b as nat) + "_P"@;
    let ha = ga + decimal(priority_a as nat) + "_S"@;
    let hb = gb + decimal(priority_b as nat) + "_S"@;
    assert(ha.last() == 'S' && hb.last() == 'S');
    lemma_number_field(ha, sender_a as nat, hb, sender_b as nat, suffix);
    assert(ga.last() == 'P' && gb.last() == 'P');
    lemma_number_field(ga, priority_a as nat, gb, priority_b as nat, "_S"@);
    assert("R"@.last() == 'R');
    lemma_number_field("R"@, receiver_a as nat, "R"@, receiver_b as nat, "_P"@);
}

/// Names made for the senders of tasks with one suffix tell the tasks and
/// the senders apart: two such names that are equal name the same task and
/// the same sender.
pub proof fn lemma_per_sender_names_differ(
    suffix: Seq<char>,
    task1: Seq<char>,
    sender1: Core,
    task2: Seq<char>,
    sender2: Core,
)
    requires
        per_sender_name(task1, sender1, suffix) == per_sender_name(task2, sender2, suffix),
    ensures
        task1 == task2,
        sender1 == sender2,
{
    reveal_strlit("_S");
    let h1 = task1 + "_S"@;
    let h2 = task2 + "_S"@;
    assert(h1.last() == 'S' && h2.last() == 'S');
    lemma_number_field(h1, sender1 as nat, h2, sender2 as nat, suffix);
    assert(task1 =~= h1.take(h1.len() - 2));
    assert(task2 =~= h2.take(h2.len() - 2));
}

/// Names made for the calls of tasks with one prefix tell the tasks and the
/// senders apart.
pub proof fn lemma_per_call_names_differ(
    prefix: Seq<char>,
    task1: Seq<char>,
    sender1: Core,
    task2: Seq<char>,
    sender2: Core,
)
    requires
        per_call_name(prefix, task1, sender1) == per_call_name(prefix, task2, sender2),
    ensures
        task1 == task2,
        sender1 == sender2,
{
    reveal_strlit("_S");
    let h1 = prefix + task1 + "_S"@;
    let h2 = prefix + task2 + "_S"@;
    assert(h1.last() == 'S' && h2.last() == 'S');
    assert(h1 + decimal(sender1 as nat) + Seq::<char>::empty() =~= h1 + decimal(sender1 as nat));
    assert(h2 + decimal(sender2 as nat) + Seq::<char>::empty() =~= h2 + decimal(sender2 as nat));
    lemma_number_field(h1, sender1 as nat, h2, sender2 as nat, Seq::empty());
    assert(task1 =~= h1.take(h1.len() - 2).skip(prefix.len() as int));
    assert(task2 =~= h2.take(h2.len() - 2).skip(prefix.len() as int));
}

/// Builds the name `task`, `_S`, the sender's number, `suffix`.
fn per_sender(task: &Name, sender: Core, suffix: &str) -> (r: Name)
    requires
        is_ident_tail(suffix@),
    ensures
        r@ == per_sender_name(task@, sender, suffix@),
{
    let mut text = String::from_str(task.as_str());
    text.append("_S");
    push_decimal(&mut text, sender as usize);
    text.append(suffix);
    proof {
        reveal_strlit("_S");
        lemma_decimal_digits(sender as nat);
        lemma_identifier_append(task@, "_S"@);
        lemma_identifier_append(task@ + "_S"@, decimal(sender as nat));
        lemma_identifier_append(task@ + "_S"@ + decimal(sender as nat), suffix@);
    }
    Name::from_valid(text)
}

/// Builds the name `R`, receiver, `_P`, priority, `_S`, sender, `suffix`.
fn per_queue(receiver: Core, priority: u8, sender: Core, suffix: &str) -> (r: Name)
    requires
        is_ident_tail(suffix@),
    ensures
        r@ == per_queue_name(receiver, priority, sender, suffix@),
{
    let mut text = String::from_str("R");
    push_decimal(&mut text, receiver as usize);
    text.append("_P");
    push_decimal(&mut text, priority as usize);
    text.append("_S");
    push_decimal(&mut text, sender as usize);
    text.append(suffix);
    proof {
        reveal_strlit("R");
        reveal_strlit("_P");
        reveal_strlit("_S");
        lemma_decimal_digits(receiver as nat);
        lemma_decimal_digits(priority as nat);
        lemma_decimal_digits(sender as nat);
        let a = "R"@ + decimal(receiver as nat);
        lemma_identifier_append("R"@, decimal(receiver as nat));
        lemma_identifier_append(a, "_P"@);
        let b = a + "_P"@ + decimal(priority as nat);
        lemma_identifier_append(a + "_P"@, decimal(priority as nat));
        lemma_identifier_append(b, "_S"@);
        lemma_identifier_append(b + "_S"@, decimal(sender as nat));
        lemma_identifier_append(b + "_S"@ + decimal(sender as nat), suffix@);
    }
    Name::from_valid(text)
}

/// Builds the name `prefix` and the core's number.
fn per_core(prefix: &str, core: Core) -> (r: Name)
    requires
        is_identifier(prefix@),
    ensures
        r@ == per_core_name(prefix@, core),
{
    let mut text = String::from_str(prefix);
    push_decimal(&mut text, core as usize);
    proof {
        lemma_decimal_digits(core as nat);
        lemma_identifier_append(prefix@, decimal(core as nat));
    }
    Name::from_valid(text)
}

/// Builds the name `prefix`, the task's name, `_S`, the sender's number.
fn per_call(prefix: &str, task: &Name, sender: Core) -> (r: Name)
    requires
        is_identifier(prefix@),
    ensures
        r@ == per_call_name(prefix@, task@, sender),
{
    let mut text = String::from_str(prefix);
    text.append(task.as_str());
    text.append("_S");
    push_decimal(&mut text, sender as usize);
    proof {
        reveal_strlit("_S");
        lemma_decimal_digits(sender as nat);
        lemma_identifier_append(prefix@, task@);
        lemma_identifier_append(prefix@ + task@, "_S"@);
        lemma_identifier_append(prefix@ + task@ + "_S"@, decimal(sender as nat));
    }
    Name::from_valid(text)
}

/// Builds the name `head` followed by `suffix`.
fn with_suffix(head: &Name, suffix: &str) -> (r: Name)
    requires
        is_ident_tail(suffix@),
    ensures
        r@ == head@ + suffix@,
{
    let mut text = String::from_str(head.as_str());
    text.append(suffix);
    proof {
        lemma_identifier_append(head@, suffix@);
    }
    Name::from_valid(text)
}

/// The name that the input with the number `index` is bound to.
pub open spec fn input_name(index: nat) -> Seq<char> {
    "_"@ + decimal(index)
}

/// The inputs of a task, regrouped: the names that the inputs are bound
/// to, in order, and whether the inputs travel as a tuple. A single input
/// travels as it is; none, or several, travel as a tuple.
pub struct Regrouped {
    pub names: Vec<Name>,
    pub tupled: bool,
}

impl Regrouped {
    /// The texts of the names, in order.
    pub open spec fn names_spec(&self) -> Seq<Seq<char>> {
        Seq::new(self.names@.len(), |i: int| self.names@[i]@)
    }
}

/// Regroups the `count` inputs of a task: the input with the number `i`
/// is bound to the name `_i`.
pub fn regroup_inputs(count: usize) -> (r: Regrouped)
    ensures
        r.names_spec() == Seq::new(count as nat, |i: int| input_name(i as nat)),
        r.tupled == (count != 1),
{
    let mut names: Vec<Name> = Vec::new();
    let mut i: usize = 0;
    while i < count
        invariant
            i <= count,
            names@.len() == i,
            forall|j: int| 0 <= j < i ==> (#[trigger] names@[j])@ == input_name(j as nat),
        decreases count - i,
    {
        let mut text = String::from_str("_");
        push_decimal(&mut text, i);
        proof {
            reveal_strlit("_");
            lemma_decimal_digits(i as nat);
            assert("_"@ =~= seq!['_']);
            lemma_identifier_append("_"@, decimal(i as nat));
        }
        names.push(Name::from_valid(text));
        i = i + 1;
    }
    let r = Regrouped { names, tupled: count != 1 };
    assert(r.names_spec() =~= Seq::new(count as nat, |i: int| input_name(i as nat)));
    r
}

/// The text that selects the code of one core, where there is more than
/// one: the core's number. With a single core nothing is selected.
pub fn cfg_core(core: Core, cores: u8) -> (r: Option<String>)
    ensures
        r is None <==> cores == 1,
        r is Some ==> r->0@ == decimal(core as nat),
{
    if cores == 1 {
        None
    } else {
        Some(decimal_string(core as usize))
    }
}

/// The name of the free queue of `task` for the sender core `sender`. A
/// task has one free queue for each core that sends to it.
pub fn fq_ident(task: &Name, sender: Core) -> (r: Name)
    ensures
        r@ == per_sender_name(task@, sender, "_FQ"@),
{
    proof {
        reveal_strlit("_FQ");
    }
    per_sender(task, sender, "_FQ")
}

/// The name of the barrier that holds other cores back until the core
/// `initializer` has run its initialization.
pub fn init_barrier(initializer: Core) -> (r: Name)
    ensures
        r@ == per_core_name("IB"@, initializer),
{
    proof {
        reveal_strlit("IB");
    }
    per_core("IB", initializer)
}

/// The name of the buffer that holds the inputs of `task` sent by `sender`.
pub fn inputs_ident(task: &Name, sender: Core) -> (r: Name)
    ensures
        r@ == per_sender_name(task@, sender, "_INPUTS"@),
{
    proof {
        reveal_strlit("_INPUTS");
    }
    per_sender(task, sender, "_INPUTS")
}

/// The name of the buffer that holds the due instants of `task` scheduled
/// by `sender`.
pub fn instants_ident(task: &Name, sender: Core) -> (r: Name)
    ensures
        r@ == per_sender_name(task@, sender, "_INSTANTS"@),
{
    proof {
        reveal_strlit("_INSTANTS");
    }
    per_sender(task, sender, "_INSTANTS")
}

/// The name of the structure of the resources that the initialization
/// function `init` hands over when it returns.
pub fn late_resources_ident(init: &Name) -> (r: Name)
    ensures
        r@ == init@ + "LateResources"@,
{
    proof {
        reveal_strlit("LateResources");
    }
    with_suffix(init, "LateResources")
}

/// The name of the structure of the local variables of `ctxt`.
pub fn locals_ident(ctxt: Context, app: &App) -> (r: Name)
    requires
        app.defines(ctxt),
    ensures
        r@ == app.context_name(ctxt) + "Locals"@,
{
    proof {
        reveal_strlit("Locals");
    }
    with_suffix(app.name_of(&ctxt), "Locals")
}

/// The name of the rendezvous barrier of `core`.
pub fn rendezvous_ident(core: Core) -> (r: Name)
    ensures
        r@ == per_core_name("RV"@, core),
{
    proof {
        reveal_strlit("RV");
    }
    per_core("RV", core)
}

/// The name of the structure of the resources of `ctxt`.
pub fn resources_ident(ctxt: Context, app: &App) -> (r: Name)
    requires
        app.defines(ctxt),
    ensures
        r@ == app.context_name(ctxt) + "Resources"@,
{
    proof {
        reveal_strlit("Resources");
    }
    with_suffix(app.name_of(&ctxt), "Resources")
}

/// The name of a ready queue. A core has a dispatcher for each priority in
/// use, and a dispatcher has a ready queue for each core that sends to it,
/// since a queue has one producer.
pub fn rq_ident(receiver: Core, priority: u8, sender: Core) -> (r: Name)
    ensures
        r@ == per_queue_name(receiver, priority, sender, "_RQ"@),
{
    proof {
        reveal_strlit("_RQ");
    }
    per_queue(receiver, priority, sender, "_RQ")
}

/// The name of the function by which `sender` schedules the task `name`.
pub fn schedule_ident(name: &Name, sender: Core) -> (r: Name)
    ensures
        r@ == per_call_name("schedule_"@, name@, sender),
{
    proof {
        reveal_strlit("schedule_");
    }
    per_call("schedule_", name, sender)
}

/// The name of the enumeration of the tasks that `core` can schedule.
pub fn schedule_t_ident(core: Core) -> (r: Name)
    ensures
        r@ == per_core_name("T"@, core),
{
    proof {
        reveal_strlit("T");
    }
    per_core("T", core)
}

/// The name of the barrier that holds back messages to `receiver` until it
/// has run its initialization.
pub fn spawn_barrier(receiver: Core) -> (r: Name)
    ensures
        r@ == per_core_name("SB"@, receiver),
{
    proof {
        reveal_strlit("SB");
    }
    per_core("SB", receiver)
}

/// The name of the function by which `sender` spawns the task `name`.
pub fn spawn_ident(name: &Name, sender: Core) -> (r: Name)
    ensures
        r@ == per_call_name("spawn_"@, name@, sender),
{
    proof {
        reveal_strlit("spawn_");
    }
    per_call("spawn_", name, sender)
}

/// The name of the enumeration of the tasks that travel through one ready
/// queue: built as the queue's name is, since each queue has its own.
pub fn spawn_t_ident(receiver: Core, priority: u8, sender: Core) -> (r: Name)
    ensures
        r@ == per_queue_name(receiver, priority, sender, "_T"@),
{
    proof {
        reveal_strlit("_T");
    }
    per_queue(receiver, priority, sender, "_T")
}

/// The name of the timer queue of `core`. A core has at most one.
pub fn tq_ident(core: Core) -> (r: Name)
    ensures
        r@ == per_core_name("TQ"@, core),
{
    proof {
        reveal_strlit("TQ");
    }
    per_core("TQ", core)
}

} // verus!
