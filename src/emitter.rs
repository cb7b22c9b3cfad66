use vstd::prelude::*;
use vstd::string::StringExecFns;

verus! {

/// Collects the generated program: a header (preamble and declarations)
/// and a body (the translated statements).
pub struct Emitter {
    pub full_path: String,
    pub header: String,
    pub code: String,
}

/// `s` followed by a line break.
pub open spec fn line(s: Seq<char>) -> Seq<char> {
    s.push('\n')
}

/// Opening braces in `s` minus closing braces.
pub open spec fn braces(s: Seq<char>) -> int
    decreases s.len(),
{
    if s.len() == 0 {
        0
    } else {
        braces(s.drop_last()) + if s.last() == '{' {
            1int
        } else if s.last() == '}' {
            -1int
        } else {
            0int
        }
    }
}

/// `s` holds no brace.
pub open spec fn no_braces(s: Seq<char>) -> bool {
    forall|i: int| 0 <= i < s.len() ==> #[trigger] s[i] != '{' && s[i] != '}'
}

/// Braces count additively over concatenation.
pub proof fn lemma_braces_add(a: Seq<char>, b: Seq<char>)
    ensures
        braces(a + b) == braces(a) + braces(b),
    decreases b.len(),
{
    if b.len() > 0 {
        lemma_braces_add(a, b.drop_last());
        assert((a + b).drop_last() =~= a + b.drop_last());
    }
}

/// Text without braces is balanced.
pub proof fn lemma_no_braces(s: Seq<char>)
    requires
        no_braces(s),
    ensures
        braces(s) == 0,
    decreases s.len(),
{
    if s.len() > 0 {
        assert(no_braces(s.drop_last()));
        lemma_no_braces(s.drop_last());
    }
}

/// A line of brace-free text with `extra` at its end.
pub proof fn lemma_braces_line(s: Seq<char>, extra: Seq<char>)
    requires
        no_braces(s),
    ensures
        braces(line(s + extra)) == braces(extra),
{
    lemma_no_braces(s);
    lemma_braces_add(s, extra);
    assert(line(s + extra) =~= (s + extra) + seq!['\n']);
    lemma_braces_add(s + extra, seq!['\n']);
    lemma_no_braces(seq!['\n']);
}

impl Emitter {
    /// An emitter with empty buffers that will be written to `path`.
    pub fn new(path: String) -> (r: Emitter)
        ensures
            r.full_path@ == path@,
            r.header@ == Seq::<char>::empty(),
            r.code@ == Seq::<char>::empty(),
    {
        Emitter { full_path: path, header: String::new(), code: String::new() }
    }

    /// Appends `code` to the body.
    pub fn emit(&mut self, code: &str)
        ensures
            final(self).code@ == old(self).code@ + code@,
            final(self).header@ == old(self).header@,
            final(self).full_path@ == old(self).full_path@,
    {
        self.code.append(code);
    }

    /// Appends `code` and a line break to the body.
    pub fn emit_line(&mut self, code: &str)
        ensures
            final(self).code@ == old(self).code@ + line(code@),
            final(self).header@ == old(self).header@,
            final(self).full_path@ == old(self).full_path@,
    {
        self.code.append(code);
        self.code.append("\n");
        proof {
            reveal_strlit("\n");
            assert(old(self).code@ + code@ + seq!['\n'] =~= old(self).code@ + line(code@));
        }
    }

    /// Appends `code` and a line break to the header.
    pub fn header_line(&mut self, code: &str)
        ensures
            final(self).header@ == old(self).header@ + line(code@),
            final(self).code@ == old(self).code@,
            final(self).full_path@ == old(self).full_path@,
    {
        self.header.append(code);
        self.header.append("\n");
        proof {
            reveal_strlit("\n");
            assert(old(self).header@ + code@ + seq!['\n'] =~= old(self).header@ + line(code@));
        }
    }

    /// The whole generated program: the header followed by the body.
    pub fn output(&self) -> (r: String)
        ensures
            r@ == self.header@ + self.code@,
    {
        let mut r = self.header.clone();
        r.append(self.code.as_str());
        r
    }

    /// Where the generated program is to be written.
    pub fn path(&self) -> (r: &str)
        ensures
            r@ == self.full_path@,
    {
        self.full_path.as_str()
    }
}

} // verus!
