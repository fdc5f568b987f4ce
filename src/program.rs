//! Source files: a sequence of declarations, assembled into a mapping from
//! each name to its expression.
use vstd::prelude::*;
use vstd::string::StringSliceAdditionalSpecFns;
use vstd::utf8::encode_utf8;
use crate::expr::{merge_of, nothing, scan, slice, Engine, Expr, Step};
use crate::syntax::{
    decl_map, join, lemma_join_join, program, units_at, Class, Diagnostic, Reasons, Tree,
    Units,
};

verus! {

/// The intermediate representation of a source file: each declared name
/// with the expression that it was last given. Names are kept once each.
/// The expressions borrow from the source text.
#[derive(PartialEq, Debug)]
pub struct HugoIR<'a> {
    fnmap: Vec<(String, Expr<'a>)>,
}

/// The bytes of a name.
pub open spec fn key(s: String) -> Seq<u8> {
    encode_utf8(s@)
}

/// A held declaration as bytes and a tree.
pub open spec fn entry(x: (String, Expr)) -> (Seq<u8>, Tree) {
    (key(x.0), x.1.tree())
}

/// No name occurs twice.
pub open spec fn unique_keys(s: Seq<(Seq<u8>, Tree)>) -> bool {
    forall|i: int, j: int| 0 <= i < s.len() && 0 <= j < s.len() && i != j ==> s[i].0 != s[j].0
}

/// The last declaration of `k` in `s` is the one at `i`.
proof fn lemma_lookup(s: Seq<(Seq<u8>, Tree)>, k: Seq<u8>, i: int)
    requires
        0 <= i < s.len(),
        s[i].0 == k,
        forall|j: int| i < j < s.len() ==> s[j].0 != k,
    ensures
        decl_map(s).contains_key(k),
        decl_map(s)[k] == s[i].1,
    decreases s.len(),
{
    if i < s.len() - 1 {
        lemma_lookup(s.drop_last(), k, i);
    }
}

/// A name that nothing declares is not in the mapping.
proof fn lemma_absent(s: Seq<(Seq<u8>, Tree)>, k: Seq<u8>)
    requires
        forall|j: int| 0 <= j < s.len() ==> s[j].0 != k,
    ensures
        !decl_map(s).contains_key(k),
    decreases s.len(),
{
    if s.len() > 0 {
        lemma_absent(s.drop_last(), k);
    }
}

/// Giving the only declaration of a name a new tree gives the name that tree.
proof fn lemma_update(s: Seq<(Seq<u8>, Tree)>, i: int, v: Tree)
    requires
        0 <= i < s.len(),
        unique_keys(s),
    ensures
        decl_map(s.update(i, (s[i].0, v))) =~= decl_map(s).insert(s[i].0, v),
    decreases s.len(),
{
    let t = s.update(i, (s[i].0, v));
    if i == s.len() - 1 {
        assert(t.drop_last() =~= s.drop_last());
    } else {
        assert(t.drop_last() =~= s.drop_last().update(i, (s[i].0, v)));
        lemma_update(s.drop_last(), i, v);
        assert(s.last().0 != s[i].0);
    }
}

/// With names kept once each, there are as many names as declarations.
proof fn lemma_size(s: Seq<(Seq<u8>, Tree)>)
    requires
        unique_keys(s),
    ensures
        decl_map(s).dom().finite(),
        decl_map(s).dom().len() == s.len(),
    decreases s.len(),
{
    if s.len() > 0 {
        let d = s.drop_last();
        lemma_size(d);
        assert forall|j: int| 0 <= j < d.len() implies d[j].0 != s.last().0 by {
            assert(d[j] == s[j]);
        }
        lemma_absent(d, s.last().0);
    }
}

/// Whether two texts have the same bytes.
fn same_text(a: &str, b: &str) -> (r: bool)
    ensures
        r == (a.spec_bytes() == b.spec_bytes()),
{
    let x = a.as_bytes();
    let y = b.as_bytes();
    if x.len() != y.len() {
        return false;
    }
    let mut i: usize = 0;
    while i < x.len()
        invariant
            x@ == a.spec_bytes(),
            y@ == b.spec_bytes(),
            x@.len() == y@.len(),
            i <= x@.len(),
            forall|j: int| 0 <= j < i ==> x@[j] == y@[j],
        decreases x@.len() - i,
    {
        if x[i] != y[i] {
            assert(x@[i as int] != y@[i as int]);
            return false;
        }
        i = i + 1;
    }
    assert(x@ =~= y@);
    true
}

/// Whether `r` is what parsing the source file `src` gives: the mapping of
/// its declarations and no diagnostics, or no mapping and the one diagnostic
/// at the furthest position where parsing failed.
pub open spec fn program_result(src: &str, r: (Option<HugoIR>, Vec<Diagnostic>)) -> bool {
    match program(src.spec_bytes()) {
        Units::Done { decls, .. } => r.0 matches Some(ir) && ir.wf() && ir@ == decl_map(decls)
            && r.1@.len() == 0,
        Units::Stuck { failure } => r.0 is None && r.1@ == seq![failure],
    }
}

impl<'a> View for HugoIR<'a> {
    type V = Map<Seq<u8>, Tree>;

    closed spec fn view(&self) -> Map<Seq<u8>, Tree> {
        decl_map(self.entries())
    }
}

impl<'a> HugoIR<'a> {
    /// The declarations held, in order.
    pub closed spec fn entries(&self) -> Seq<(Seq<u8>, Tree)> {
        self.fnmap@.map_values(|x: (String, Expr<'a>)| entry(x))
    }

    pub closed spec fn wf(&self) -> bool {
        unique_keys(self.entries())
    }

    /// An empty mapping.
    pub fn new() -> (r: HugoIR<'a>)
        ensures
            r.wf(),
            r@ == Map::<Seq<u8>, Tree>::empty(),
    {
        let r = HugoIR { fnmap: Vec::new() };
        assert(r.entries() =~= Seq::<(Seq<u8>, Tree)>::empty());
        r
    }

    /// Gives `name` the expression `e`, replacing what it had.
    pub fn declare(&mut self, name: String, e: Expr<'a>)
        requires
            old(self).wf(),
        ensures
            final(self).wf(),
            final(self)@ == old(self)@.insert(key(name), e.tree()),
    {
        let ghost s = self.entries();
        let mut i: usize = 0;
        while i < self.fnmap.len()
            invariant
                self.fnmap@ == old(self).fnmap@,
                s == self.entries(),
                unique_keys(s),
                i <= s.len(),
                forall|j: int| 0 <= j < i ==> s[j].0 != key(name),
            decreases s.len() - i,
        {
            if same_text(self.fnmap[i].0.as_str(), name.as_str()) {
                proof {
                    lemma_update(s, i as int, e.tree());
                }
                self.fnmap.set(i, (name, e));
                proof {
                    assert(self.entries() =~= s.update(i as int, (s[i as int].0, e.tree())));
                }
                return;
            }
            i = i + 1;
        }
        self.fnmap.push((name, e));
        proof {
            let t = self.entries();
            assert(t.drop_last() =~= s);
            assert(t.last().0 == key(name));
            assert forall|j: int| 0 <= j < s.len() implies t[j] == s[j] by {}
        }
    }

    /// The expression last declared under `name`, if any.
    pub fn get(&self, name: &str) -> (r: Option<&Expr<'a>>)
        ensures
            match r {
                Some(e) => self@.contains_key(name.spec_bytes()) && self@[name.spec_bytes()]
                    == e.tree(),
                None => !self@.contains_key(name.spec_bytes()),
            },
    {
        let ghost s = self.entries();
        let mut i: usize = self.fnmap.len();
        while i > 0
            invariant
                s == self.entries(),
                i <= s.len(),
                forall|j: int| i <= j < s.len() ==> s[j].0 != name.spec_bytes(),
            decreases i,
        {
            if same_text(self.fnmap[i - 1].0.as_str(), name) {
                proof {
                    lemma_lookup(s, name.spec_bytes(), i - 1);
                }
                return Some(&self.fnmap[i - 1].1);
            }
            i = i - 1;
        }
        proof {
            lemma_absent(s, name.spec_bytes());
        }
        None
    }

    /// The number of names declared.
    pub fn len(&self) -> (r: usize)
        requires
            self.wf(),
        ensures
            self@.dom().finite(),
            r == self@.dom().len(),
    {
        proof {
            lemma_size(self.entries());
        }
        self.fnmap.len()
    }

    /// Parses a source file: declarations `name expression`, each name one or
    /// more ASCII letters, whitespace around each part. Gives the mapping and
    /// no diagnostics, or, if any declaration fails, no mapping and the
    /// diagnostic at the furthest position reached.
    pub fn parse(src: &'a str) -> (r: (Option<HugoIR<'a>>, Vec<Diagnostic>))
        ensures
            program_result(src, r),
    {
        let mut engine = Engine::new(src, true);
        let b = engine.b;
        let n = b.len();
        let mut p = scan(b, 0, Class::Space);
        let mut ir = HugoIR::new();
        let mut alt: Option<Diagnostic> = None;
        let ghost done: Seq<(Seq<u8>, Tree)> = seq![];
        proof {
            let u = units_at(b@, p as int);
            assert(join(done, alt, u) == u) by {
                if let Units::Done { decls, alt } = u {
                    assert(done + decls =~= decls);
                }
            }
        }
        while p < n
            invariant
                engine.wf(),
                engine.src == src,
                engine.b@ == b@,
                b@ == src.spec_bytes(),
                n == b@.len(),
                p <= n,
                ir.wf(),
                ir@ == decl_map(done),
                program(b@) == join(done, alt, units_at(b@, p as int)),
            decreases n - p,
        {
            let k = scan(b, p, Class::Letter);
            let stop = engine.fail_here(p, Reasons { end_of_input: true, ..nothing() });
            if k == 0 {
                let d = engine.fail_here(p, Reasons { name: true, ..nothing() });
                let f = merge_of(Some(d), Some(stop)).unwrap();
                let mut ds = Vec::new();
                ds.push(merge_of(alt, Some(f)).unwrap());
                assert(ds@ =~= seq![ds@[0]]);
                return (None, ds);
            }
            match engine.expression(p + k) {
                Step::Failed(d) => {
                    let f = merge_of(Some(d), Some(stop)).unwrap();
                    let mut ds = Vec::new();
                    ds.push(merge_of(alt, Some(f)).unwrap());
                    assert(ds@ =~= seq![ds@[0]]);
                    return (None, ds);
                },
                Step::Parsed(e, used, a1) => {
                    let name_text = slice(src, p, p + k);
                    let name = name_text.to_owned();
                    let ghost x = (b@.subrange(p as int, p + k), e.tree());
                    proof {
                        lemma_join_join(done, alt, seq![x], a1, units_at(b@, p + k + used));
                        assert(done + seq![x] =~= done.push(x));
                        assert(done.push(x).drop_last() =~= done);
                    }
                    ir.declare(name, e);
                    proof {
                        done = done.push(x);
                    }
                    alt = merge_of(alt, a1);
                    p = p + k + used;
                },
            }
        }
        proof {
            assert(done + seq![] =~= done);
        }
        (Some(ir), Vec::new())
    }

    /// Simplifies the mapping before it is run. No rewriting is done yet:
    /// the mapping is left as it is.
    pub fn optimise(&mut self)
        ensures
            *final(self) == *old(self),
    {
    }

    /// Runs the program. The interpreter has no effect yet.
    pub fn interpret(&self) {
    }

    /// Writes the program as native code. Nothing is written yet.
    pub fn output_x86_elf(&self) {
    }
}

} // verus!
