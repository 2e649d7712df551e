//! The proof kernel for propositional logic: instantiation replaces every
//! occurrence of a variable, with no binders to respect.
use vstd::prelude::*;
use crate::kernel::{KernelError, Outcome, mp_result, Cmd, read_command, command_effect, answers, Act, kernel_message};
use crate::parser::parse_text;
use crate::parser::ParseError;
use crate::sym::{SymData, SymDB};
use crate::tree::{Term, Tree, Subtree, leaf, replace_all};
use crate::util::{SplitWhitespace, parse_usize};

verus! {

/// The propositional proof kernel: the proved terms, in the order they were proved.
pub struct System {
    base: crate::kernel::System,
}

/// What `inst <id> <var> <text>` does in the propositional kernel: every
/// occurrence of `var` is replaced.
pub open spec fn inst_effect(
    syms: Seq<SymData>,
    before: Seq<Term<Seq<char>>>,
    after: Seq<Term<Seq<char>>>,
    id: nat,
    var: Seq<char>,
    text: Seq<char>,
    r: Result<Outcome, String>,
) -> bool {
    match parse_text(syms, text) {
        Err(_) => answers(r, Err(""@)) && after == before,
        Ok(rep) => if id >= before.len() {
            answers(r, Err(kernel_message(KernelError::UnknownId(id as usize)))) && after == before
        } else {
            answers(r, Ok(Act::Derived(before.len()))) && after == before.push(
                replace_all(before[id as int], leaf(var), rep),
            )
        },
    }
}

impl System {
    pub closed spec fn proved(&self) -> Seq<Term<Seq<char>>> {
        self.base.proved()
    }

    pub closed spec fn syms(&self) -> Seq<SymData> {
        self.base.syms()
    }

    pub closed spec fn wf(&self) -> bool {
        self.base.wf()
    }

    /// A kernel with no proved terms, reading text under `syms`.
    pub fn new(syms: SymDB) -> (r: Self)
        ensures
            r.wf(),
            r.proved() == Seq::<Term<Seq<char>>>::empty(),
            r.syms() == syms.syms(),
    {
        System { base: crate::kernel::System::new(syms) }
    }

    pub fn len(&self) -> (r: usize)
        ensures
            r == self.proved().len(),
    {
        self.base.len()
    }

    /// Replaces every occurrence of the variable `var` in proof `id` by the
    /// term below `replace`, and appends the result.
    pub fn inst(&mut self, id: usize, var: &str, replace: Subtree<'_, String>) -> (r: Result<usize, KernelError>)
        requires
            old(self).wf(),
        ensures
            final(self).wf(),
            final(self).syms() == old(self).syms(),
            id >= old(self).proved().len() ==> r == Err::<usize, KernelError>(KernelError::UnknownId(id))
                && final(self).proved() == old(self).proved(),
            id < old(self).proved().len() ==> (r matches Ok(n) && n == old(self).proved().len())
                && final(self).proved() == old(self).proved().push(
                    replace_all(old(self).proved()[id as int], leaf(var@), replace.term()),
                ),
    {
        let mut proof = match self.base.get(id) {
            Some(p) => p.clone_sub(p.root_id()),
            None => {
                return Err(KernelError::UnknownId(id));
            },
        };
        let from = Tree::new(var.to_owned());
        proof.replace(from.subtree_root(), replace);
        Ok(self.base.append(proof))
    }

    /// Modus ponens: from proof `id_antec` = `P` and proof `id_imply` = `P -> Q`, appends `Q`.
    pub fn mp(&mut self, id_antec: usize, id_imply: usize) -> (r: Result<usize, KernelError>)
        requires
            old(self).wf(),
        ensures
            final(self).wf(),
            final(self).syms() == old(self).syms(),
            id_antec >= old(self).proved().len() ==> r == Err::<usize, KernelError>(KernelError::UnknownId(id_antec))
                && final(self).proved() == old(self).proved(),
            id_antec < old(self).proved().len() && id_imply >= old(self).proved().len() ==> r == Err::<usize, KernelError>(
                KernelError::UnknownId(id_imply),
            ) && final(self).proved() == old(self).proved(),
            id_antec < old(self).proved().len() && id_imply < old(self).proved().len() ==> match mp_result(
                old(self).proved()[id_antec as int],
                old(self).proved()[id_imply as int],
            ) {
                Ok(q) => (r matches Ok(n) && n == old(self).proved().len()) && final(self).proved()
                    == old(self).proved().push(q),
                Err(e) => r == Err::<usize, KernelError>(e) && final(self).proved() == old(self).proved(),
            },
    {
        self.base.mp(id_antec, id_imply)
    }

    /// Replaces the proved terms by those of `lines`, as the first-order kernel does.
    pub fn load_lines(&mut self, lines: &Vec<String>) -> (r: Result<(), ParseError>)
        requires
            old(self).wf(),
        ensures
            final(self).wf(),
            final(self).syms() == old(self).syms(),
            match crate::kernel::load_from(old(self).syms(), crate::names::name_views(lines@), 0) {
                Ok(ts) => r is Ok && final(self).proved() == ts,
                Err(e) => r == Err::<(), ParseError>(e),
            },
            final(self).proved() == crate::kernel::loaded_prefix(old(self).syms(), crate::names::name_views(lines@), 0),
    {
        self.base.load_lines(lines)
    }

    /// Each proved term printed with as few parentheses as the table allows, in id order.
    pub fn saved_lines(&self) -> (r: Vec<String>)
        requires
            self.wf(),
        ensures
            r@.len() == self.proved().len(),
            forall|i: int| 0 <= i < r@.len() ==> (#[trigger] r@[i])@ == crate::sym::render(self.syms(), self.proved()[i]),
    {
        self.base.saved_lines()
    }

    /// Proof `id` printed with as few parentheses as the table allows.
    pub fn show_proof(&self, id: usize) -> (r: Option<String>)
        requires
            self.wf(),
        ensures
            id < self.proved().len() ==> r is Some && r->Some_0@ == crate::sym::render(self.syms(), self.proved()[id as int]),
            id >= self.proved().len() ==> r is None,
    {
        self.base.show_proof(id)
    }

    /// Carries out one command line, as the first-order kernel does, except
    /// that `inst <id> <variable> <term>` replaces every occurrence.
    pub fn command(&mut self, s: &str) -> (r: Result<Outcome, String>)
        requires
            old(self).wf(),
        ensures
            final(self).wf(),
            final(self).syms() == old(self).syms(),
            command_effect(old(self).proved(), final(self).proved(), read_command(s@), r),
            read_command(s@) matches Cmd::Inst(id, var, text) ==> inst_effect(
                old(self).syms(),
                old(self).proved(),
                final(self).proved(),
                id,
                var,
                text,
                r,
            ),
    {
        let mut args = SplitWhitespace::new(s);
        let cmd = match args.next() {
            Some(c) => c,
            None => {
                return Ok(Outcome::Nothing);
            },
        };
        if !(cmd == "inst".to_owned()) {
            return self.base.command(s);
        }
        proof {
            reveal_strlit("inst");
            reveal_strlit("show");
            reveal_strlit("save");
            reveal_strlit("load");
            reveal_strlit("mp");
            assert("inst"@[0] == 'i' && "show"@[0] == 's' && "save"@[0] == 's' && "load"@[0] == 'l');
            assert("inst"@.len() == 4 && "mp"@.len() == 2);
            assert(cmd@ != "show"@ && cmd@ != "save"@ && cmd@ != "load"@ && cmd@ != "mp"@);
        }
        let id = match args.next() {
            Some(a) => a,
            None => {
                return Err("".to_owned());
            },
        };
        let id = match parse_usize(id.as_str()) {
            Some(n) => n,
            None => {
                return Err("".to_owned());
            },
        };
        let var = match args.next() {
            Some(v) => v,
            None => {
                return Err("".to_owned());
            },
        };
        let rem = args.remainder();
        let replace = match self.base.parse(rem.as_str()) {
            Ok(t) => t,
            Err(_) => {
                return Err("".to_owned());
            },
        };
        match self.inst(id, var.as_str(), replace.subtree_root()) {
            Ok(n) => Ok(Outcome::Derived(n)),
            Err(e) => Err(e.message()),
        }
    }
}

} // verus!
