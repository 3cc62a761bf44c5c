//! The line-based step grammar that the evaluator runs: each line is a
//! call, an assignment from a call, or a `loop:` header, with its depth.
use vstd::prelude::*;
use vstd::string::*;
use crate::text::chars_of;
use crate::tokens::{trim_start, trim_end, trim_range, same_text, is_white};
use crate::stack::Stack;

verus! {

/// The statement of one step.
#[derive(Debug)]
pub enum AstStatement {
    MethodCall { result_variable_name: Option<String>, name: String, args: Vec<String> },
    Loop,
}

/// One line of a script: its indentation depth and its statement.
#[derive(Debug)]
pub struct AstStep {
    pub ident: usize,
    pub statement: AstStatement,
}

/// A parsed script: its steps in source order.
#[derive(Debug)]
pub struct Ast {
    pub steps: Vec<AstStep>,
}

/// What a step says, as text.
pub enum StepModel {
    Loop,
    Call { result: Option<Seq<char>>, name: Seq<char>, args: Seq<Seq<char>> },
}

pub open spec fn args_model(args: Seq<String>) -> Seq<Seq<char>> {
    args.map_values(|a: String| a@)
}

impl AstStatement {
    pub open spec fn model(&self) -> StepModel {
        match self {
            AstStatement::Loop => StepModel::Loop,
            AstStatement::MethodCall { result_variable_name, name, args } => StepModel::Call {
                result: match result_variable_name {
                    Some(r) => Some(r@),
                    None => None,
                },
                name: name@,
                args: args_model(args@),
            },
        }
    }
}

impl AstStep {
    pub open spec fn model(&self) -> (nat, StepModel) {
        (self.ident as nat, self.statement.model())
    }
}

pub open spec fn steps_model(steps: Seq<AstStep>) -> Seq<(nat, StepModel)> {
    steps.map_values(|st: AstStep| st.model())
}

/// The first position of `c` in `i..e`, or `e`.
pub open spec fn find_char(s: Seq<char>, i: nat, e: nat, c: char) -> nat
    decreases e - i,
{
    if i < e && s[i as int] != c {
        find_char(s, i + 1, e, c)
    } else {
        i
    }
}

/// How many four-space groups start at `i`, within `..e`.
pub open spec fn groups_within(s: Seq<char>, i: nat, e: nat) -> nat
    decreases e - i,
{
    if i + 4 <= e && s[i as int] == ' ' && s[i + 1int] == ' ' && s[i + 2int] == ' ' && s[i + 3int] == ' ' {
        1 + groups_within(s, i + 4, e)
    } else {
        0
    }
}

/// How many tabs start at `i`, within `..e`.
pub open spec fn tabs_within(s: Seq<char>, i: nat, e: nat) -> nat
    decreases e - i,
{
    if i < e && s[i as int] == '\t' {
        1 + tabs_within(s, i + 1, e)
    } else {
        0
    }
}

/// Where the text of a line that starts at `i` begins once its
/// indentation is removed, and the depth of that indentation.
pub open spec fn indentation(s: Seq<char>, i: nat, e: nat) -> (nat, nat) {
    let g = groups_within(s, i, e);
    let t = tabs_within(s, i + 4 * g, e);
    (i + 4 * g + t, g + t)
}

/// The position of the `)` that closes the parenthesis opened just before
/// `i`, scanning `i..e` with `depth` parentheses still open inside; `e`
/// when there is none.
pub open spec fn matching_close(s: Seq<char>, i: nat, e: nat, depth: nat) -> nat
    decreases e - i,
{
    if i >= e {
        e
    } else if s[i as int] == '(' {
        matching_close(s, i + 1, e, depth + 1)
    } else if s[i as int] == ')' {
        if depth == 0 {
            i
        } else {
            matching_close(s, i + 1, e, (depth - 1) as nat)
        }
    } else {
        matching_close(s, i + 1, e, depth)
    }
}

/// The end of `a..e` once trailing commas and white space are removed.
pub open spec fn trim_commas(s: Seq<char>, a: nat, e: nat) -> nat
    decreases e - a,
{
    if a < e && (s[e - 1int] == ',' || is_white(s[e - 1int])) {
        trim_commas(s, a, (e - 1) as nat)
    } else {
        e
    }
}

/// `a..e` trimmed of white space, as text.
pub open spec fn trimmed(s: Seq<char>, a: nat, e: nat) -> Seq<char> {
    let x = trim_start(s, a, e);
    s.subrange(x as int, trim_end(s, x, e) as int)
}

/// The comma-separated pieces of `a..e`, each trimmed.
pub open spec fn split_args(s: Seq<char>, a: nat, e: nat) -> Seq<Seq<char>>
    decreases e - a,
    via split_args_decreases
{
    let q = find_char(s, a, e, ',');
    if q < e {
        seq![trimmed(s, a, q)] + split_args(s, q + 1, e)
    } else {
        seq![trimmed(s, a, e)]
    }
}

pub open spec fn loop_header() -> Seq<char> {
    seq!['l', 'o', 'o', 'p', ':']
}

/// The step of the line `i..e`, if it has one of the recognized shapes.
pub open spec fn step_of_line(s: Seq<char>, i: nat, e: nat) -> Option<(nat, StepModel)> {
    let (c, depth) = indentation(s, i, e);
    if trimmed(s, c, e) == loop_header() {
        Some((depth, StepModel::Loop))
    } else {
        let q = find_char(s, c, e, '=');
        let result = if q < e { Some(trimmed(s, c, q)) } else { None };
        let r0 = if q < e { trim_start(s, q + 1, e) } else { c };
        let r1 = if q < e { trim_end(s, r0, e) } else { e };
        let k = find_char(s, r0, r1, '(');
        if k < r1 {
            Some((depth, StepModel::Call {
                result,
                name: trimmed(s, r0, k),
                args: split_args(s, k + 1, trim_commas(s, k + 1, matching_close(s, k + 1, r1, 0))),
            }))
        } else {
            None
        }
    }
}

/// The end of the line that holds position `i`: the next newline, or the
/// end of the text.
pub open spec fn line_end(s: Seq<char>, i: nat) -> nat {
    find_char(s, i, s.len(), '\n')
}

/// The end of the line's content: a carriage return before the newline
/// is not part of it.
pub open spec fn content_end(s: Seq<char>, i: nat, e: nat) -> nat {
    if e < s.len() && e > i && s[e - 1int] == '\r' {
        (e - 1) as nat
    } else {
        e
    }
}

/// The steps of the lines from position `i` on.
pub open spec fn steps_from(s: Seq<char>, i: nat) -> Seq<(nat, StepModel)>
    decreases s.len() - i,
    via steps_from_decreases
{
    if i >= s.len() {
        seq![]
    } else {
        let e = line_end(s, i);
        let here = match step_of_line(s, i, content_end(s, i, e)) {
            Some(st) => seq![st],
            None => seq![],
        };
        here + if e < s.len() { steps_from(s, e + 1) } else { seq![] }
    }
}

proof fn lemma_find_char_bounds(s: Seq<char>, i: nat, e: nat, c: char)
    requires
        i <= e,
    ensures
        i <= find_char(s, i, e, c) <= e,
        forall|k: int| i <= k < find_char(s, i, e, c) ==> #[trigger] s[k] != c,
        find_char(s, i, e, c) < e ==> s[find_char(s, i, e, c) as int] == c,
    decreases e - i,
{
    if i < e && s[i as int] != c {
        lemma_find_char_bounds(s, i + 1, e, c);
    }
}

#[via_fn]
proof fn split_args_decreases(s: Seq<char>, a: nat, e: nat) {
    if a <= e {
        lemma_find_char_bounds(s, a, e, ',');
    }
}

#[via_fn]
proof fn steps_from_decreases(s: Seq<char>, i: nat) {
    if i < s.len() {
        lemma_find_char_bounds(s, i, s.len(), '\n');
    }
}

/// The steps of a whole script.
pub open spec fn script_steps(s: Seq<char>) -> Seq<(nat, StepModel)> {
    steps_from(s, 0)
}

fn find_char_in(s: &Vec<char>, i: usize, e: usize, c: char) -> (r: usize)
    requires
        i <= e <= s@.len(),
    ensures
        r == find_char(s@, i as nat, e as nat, c),
        i <= r <= e,
{
    let mut k = i;
    while k < e && s[k] != c
        invariant
            i <= k <= e <= s@.len(),
            find_char(s@, i as nat, e as nat, c) == find_char(s@, k as nat, e as nat, c),
        decreases e - k,
    {
        k = k + 1;
    }
    k
}

/// Strips the indentation of the line `i..e`: returns where its text
/// begins and its depth.
fn get_ident(s: &Vec<char>, i: usize, e: usize) -> (r: (usize, usize))
    requires
        i <= e <= s@.len(),
    ensures
        (r.0 as nat, r.1 as nat) == indentation(s@, i as nat, e as nat),
        i <= r.0 <= e,
        r.1 <= r.0 - i,
{
    let mut j = i;
    let mut g: usize = 0;
    while 4 <= e - j && s[j] == ' ' && s[j + 1] == ' ' && s[j + 2] == ' ' && s[j + 3] == ' '
        invariant
            i <= j <= e <= s@.len(),
            j == i + 4 * g,
            groups_within(s@, i as nat, e as nat) == g + groups_within(s@, j as nat, e as nat),
        decreases e - j,
    {
        j = j + 4;
        g = g + 1;
    }
    let k0 = j;
    while j < e && s[j] == '\t'
        invariant
            i <= k0 <= j <= e <= s@.len(),
            k0 == i + 4 * g,
            tabs_within(s@, k0 as nat, e as nat) == (j - k0) + tabs_within(s@, j as nat, e as nat),
        decreases e - j,
    {
        j = j + 1;
    }
    (j, g + (j - k0))
}

fn find_matching_close(s: &Vec<char>, a: usize, e: usize) -> (r: usize)
    requires
        a <= e <= s@.len(),
    ensures
        r == matching_close(s@, a as nat, e as nat, 0),
        a <= r <= e,
{
    let mut i = a;
    let mut depth: usize = 0;
    while i < e
        invariant
            a <= i <= e <= s@.len(),
            depth <= i - a,
            matching_close(s@, a as nat, e as nat, 0) == matching_close(s@, i as nat, e as nat, depth as nat),
        decreases e - i,
    {
        if s[i] == '(' {
            depth = depth + 1;
        } else if s[i] == ')' {
            if depth == 0 {
                return i;
            }
            depth = depth - 1;
        }
        i = i + 1;
    }
    e
}

fn trim_commas_in(s: &Vec<char>, a: usize, e: usize) -> (r: usize)
    requires
        a <= e <= s@.len(),
    ensures
        r == trim_commas(s@, a as nat, e as nat),
        a <= r <= e,
{
    let mut b = e;
    while a < b && (s[b - 1] == ',' || crate::tokens::is_white_char(s[b - 1]))
        invariant
            a <= b <= e <= s@.len(),
            trim_commas(s@, a as nat, e as nat) == trim_commas(s@, a as nat, b as nat),
        decreases b - a,
    {
        b = b - 1;
    }
    b
}

fn text_of(script: &str, a: usize, b: usize) -> (r: String)
    requires
        a <= b <= script@.len(),
    ensures
        r@ == script@.subrange(a as int, b as int),
{
    script.substring_char(a, b).to_owned()
}

fn trimmed_text(script: &str, s: &Vec<char>, a: usize, e: usize) -> (r: String)
    requires
        s@ == script@,
        a <= e <= s@.len(),
    ensures
        r@ == trimmed(s@, a as nat, e as nat),
{
    let (x, y) = trim_range(s, a, e);
    text_of(script, x, y)
}

fn split_args_in(script: &str, s: &Vec<char>, a: usize, e: usize) -> (r: Vec<String>)
    requires
        s@ == script@,
        a <= e <= s@.len(),
    ensures
        args_model(r@) == split_args(s@, a as nat, e as nat),
{
    let mut out: Vec<String> = Vec::new();
    let mut p = a;
    assert(args_model(out@) =~= seq![]);
    assert(seq![] + split_args(s@, a as nat, e as nat) =~= split_args(s@, a as nat, e as nat));
    loop
        invariant
            s@ == script@,
            a <= p <= e <= s@.len(),
            split_args(s@, a as nat, e as nat) == args_model(out@) + split_args(s@, p as nat, e as nat),
        decreases e - p,
    {
        let q = find_char_in(s, p, e, ',');
        let ghost before = out@;
        if q < e {
            let piece = trimmed_text(script, s, p, q);
            out.push(piece);
            assert(args_model(out@) =~= args_model(before) + seq![piece@]);
            assert(args_model(out@) + split_args(s@, (q + 1) as nat, e as nat)
                =~= args_model(before) + split_args(s@, p as nat, e as nat));
            p = q + 1;
        } else {
            let piece = trimmed_text(script, s, p, e);
            out.push(piece);
            assert(args_model(out@) =~= args_model(before) + seq![piece@]);
            assert(args_model(out@) =~= split_args(s@, a as nat, e as nat));
            return out;
        }
    }
}

/// The step of the line `i..e`, if the line has one of the recognized shapes.
fn line_step(script: &str, s: &Vec<char>, i: usize, e: usize) -> (r: Option<AstStep>)
    requires
        s@ == script@,
        i <= e <= s@.len(),
    ensures
        match r {
            Some(st) => step_of_line(s@, i as nat, e as nat) == Some(st.model()),
            None => step_of_line(s@, i as nat, e as nat) is None,
        },
{
    let (c, depth) = get_ident(s, i, e);
    let (t0, t1) = trim_range(s, c, e);
    let header = vec!['l', 'o', 'o', 'p', ':'];
    assert(header@ =~= loop_header());
    if same_text(s, t0, t1, &header) {
        return Some(AstStep { ident: depth, statement: AstStatement::Loop });
    }
    let q = find_char_in(s, c, e, '=');
    let (result_variable_name, r0, r1) = if q < e {
        let name = trimmed_text(script, s, c, q);
        let (r0, r1) = trim_range(s, q + 1, e);
        (Some(name), r0, r1)
    } else {
        (None, c, e)
    };
    let k = find_char_in(s, r0, r1, '(');
    if k < r1 {
        let name = trimmed_text(script, s, r0, k);
        let close = trim_commas_in(s, k + 1, find_matching_close(s, k + 1, r1));
        let args = split_args_in(script, s, k + 1, close);
        Some(AstStep { ident: depth, statement: AstStatement::MethodCall { result_variable_name, name, args } })
    } else {
        None
    }
}

impl Ast {
    /// Reads a script line by line into steps, and rejects it if the steps
    /// are not well nested. Lines of no recognized shape give no step.
    pub fn parse(script: &str) -> (r: Result<Ast, StructureError>)
        ensures
            r is Ok <==> well_nested(script_steps(script@)),
            r is Ok ==> steps_model(r->Ok_0.steps@) == script_steps(script@),
    {
        let ast = Ast::parse_steps(script);
        proof {
            lemma_wf_model(&ast);
        }
        match ast.check() {
            Ok(()) => Ok(ast),
            Err(e) => Err(e),
        }
    }

    /// The steps of a script, one per line of a recognized shape.
    fn parse_steps(script: &str) -> (r: Ast)
        ensures
            steps_model(r.steps@) == script_steps(script@),
    {
        let s = chars_of(script);
        let n = s.len();
        let mut steps: Vec<AstStep> = Vec::new();
        let mut i: usize = 0;
        assert(steps_model(steps@) + script_steps(s@) =~= script_steps(s@));
        while i < n
            invariant
                s@ == script@,
                n == s@.len(),
                i <= n,
                steps_model(steps@) + steps_from(s@, i as nat) == script_steps(s@),
            decreases n - i,
        {
            let e = find_char_in(&s, i, n, '\n');
            let ce = if e < n && e > i && s[e - 1] == '\r' { e - 1 } else { e };
            let ghost before = steps@;
            let ghost rest = if e < n { steps_from(s@, (e + 1) as nat) } else { seq![] };
            match line_step(script, &s, i, ce) {
                Some(st) => {
                    steps.push(st);
                    assert(steps_model(steps@) =~= steps_model(before) + seq![st.model()]);
                    assert(steps_model(steps@) + rest =~= steps_model(before) + steps_from(s@, i as nat));
                },
                None => {
                    assert(steps_from(s@, i as nat) =~= rest);
                },
            }
            if e < n {
                i = e + 1;
            } else {
                assert(steps_model(steps@) + steps_from(s@, n as nat) =~= steps_model(steps@) + rest);
                i = n;
            }
        }
        Ast { steps }
    }
}

/// Why a list of steps is not a well-nested program.
#[derive(Debug, Clone, Copy, PartialEq, Eq, Structural)]
pub enum StructureError {
    /// The first step is indented.
    IndentedStart,
    /// The step at this index is more than one level deeper than the one
    /// before it.
    SkippedLevel(usize),
    /// The step at this index opens a block under a step that is not a
    /// `loop:` header.
    BodyWithoutLoop(usize),
}

/// The nearest step at or before `j` whose depth is `d`, or -1.
pub open spec fn header_from(steps: Seq<AstStep>, d: nat, j: int) -> int
    decreases j + 1,
{
    if j < 0 {
        -1
    } else if steps[j].ident == d {
        j
    } else {
        header_from(steps, d, j - 1)
    }
}

/// The block header of the step at `i`: the nearest earlier step whose
/// depth is one less.
pub open spec fn header_of(steps: Seq<AstStep>, i: int) -> int {
    header_from(steps, (steps[i].ident - 1) as nat, i - 1)
}

pub open spec fn nests_at(steps: Seq<AstStep>, i: int) -> bool {
    &&& (i == 0 ==> steps[i].ident == 0)
    &&& (i > 0 ==> steps[i].ident <= steps[i - 1].ident + 1)
    &&& (i > 0 && steps[i].ident == steps[i - 1].ident + 1 ==> steps[i - 1].statement is Loop)
}

pub open spec fn model_nests_at(m: Seq<(nat, StepModel)>, i: int) -> bool {
    &&& (i == 0 ==> m[i].0 == 0)
    &&& (i > 0 ==> m[i].0 <= m[i - 1].0 + 1)
    &&& (i > 0 && m[i].0 == m[i - 1].0 + 1 ==> m[i - 1].1 is Loop)
}

/// The steps of a script are well nested: the first is not indented, each
/// is at most one level deeper than the one before, and only a `loop:`
/// header opens a deeper block.
pub open spec fn well_nested(m: Seq<(nat, StepModel)>) -> bool {
    forall|i: int| 0 <= i < m.len() ==> #[trigger] model_nests_at(m, i)
}

/// Well-nestedness of steps is well-nestedness of what they say.
pub proof fn lemma_wf_model(ast: &Ast)
    ensures
        ast.wf() <==> well_nested(steps_model(ast.steps@)),
{
    let s = ast.steps@;
    let m = steps_model(s);
    assert forall|i: int| 0 <= i < s.len() implies (#[trigger] nests_at(s, i) <==> model_nests_at(m, i)) by {
        assert(m[i] == s[i].model());
        if i > 0 {
            assert(m[i - 1] == s[i - 1].model());
        }
    }
    if ast.wf() {
        assert forall|i: int| 0 <= i < m.len() implies #[trigger] model_nests_at(m, i) by {
            assert(nests_at(s, i));
        }
    }
    if well_nested(m) {
        assert forall|i: int| 0 <= i < s.len() implies #[trigger] nests_at(s, i) by {
            assert(model_nests_at(m, i));
        }
    }
}

impl Ast {
    /// Blocks are well nested: the first step is not indented, each step
    /// is at most one level deeper than the one before, and only a `loop:`
    /// header opens a deeper block.
    pub open spec fn wf(&self) -> bool {
        forall|i: int| 0 <= i < self.steps@.len() ==> #[trigger] nests_at(self.steps@, i)
    }

    /// Checks that the steps are well nested.
    pub fn check(&self) -> (r: Result<(), StructureError>)
        ensures
            r is Ok <==> self.wf(),
    {
        let n = self.steps.len();
        let mut i: usize = 0;
        while i < n
            invariant
                n == self.steps@.len(),
                i <= n,
                forall|k: int| 0 <= k < i ==> #[trigger] nests_at(self.steps@, k),
            decreases n - i,
        {
            let d = self.steps[i].ident;
            if i == 0 {
                if d != 0 {
                    assert(!nests_at(self.steps@, 0));
                    return Err(StructureError::IndentedStart);
                }
            } else {
                let prev = self.steps[i - 1].ident;
                if d > prev && d - prev > 1 {
                    assert(!nests_at(self.steps@, i as int));
                    return Err(StructureError::SkippedLevel(i));
                }
                if d > prev {
                    match self.steps[i - 1].statement {
                        AstStatement::Loop => {},
                        _ => {
                            assert(!nests_at(self.steps@, i as int));
                            return Err(StructureError::BodyWithoutLoop(i));
                        },
                    }
                }
            }
            i = i + 1;
        }
        Ok(())
    }

    /// The block header of the step at `index`, which is indented: the
    /// nearest earlier step one level less deep. In a well-nested program it
    /// is a `loop:` header.
    pub fn find_ident_stmt(&self, index: usize) -> (r: (usize, &AstStep))
        requires
            self.wf(),
            index < self.steps@.len(),
            self.steps@[index as int].ident > 0,
        ensures
            r.0 as int == header_of(self.steps@, index as int),
            r.0 < index,
            *r.1 == self.steps@[r.0 as int],
            r.1.statement is Loop,
    {
        let ghost steps = self.steps@;
        let d = self.steps[index].ident;
        proof {
            assert(nests_at(steps, index as int));
        }
        let mut j = index - 1;
        while self.steps[j].ident != d - 1
            invariant
                steps == self.steps@,
                self.wf(),
                index < steps.len(),
                d == steps[index as int].ident,
                d > 0,
                j < index,
                forall|k: int| j < k <= index ==> #[trigger] steps[k].ident >= d,
                header_from(steps, (d - 1) as nat, index - 1) == header_from(steps, (d - 1) as nat, j as int),
            decreases j,
        {
            proof {
                assert(nests_at(steps, j + 1));
                assert(steps[j + 1].ident >= d);
                if j == 0 {
                    assert(nests_at(steps, 0));
                }
            }
            j = j - 1;
        }
        proof {
            assert(nests_at(steps, j + 1));
            assert(steps[j + 1].ident >= d);
        }
        (j, &self.steps[j])
    }

    /// The variable that the step the frame is at binds its result to.
    pub fn get_return_variable_name(&self, scope: &Stack) -> (r: Option<&str>)
        ensures
            scope.pc() < self.steps@.len() ==> match self.steps@[scope.pc() as int].statement {
                AstStatement::MethodCall { result_variable_name: Some(n), .. } => r is Some && r->0@ == n@,
                _ => r is None,
            },
            scope.pc() >= self.steps@.len() ==> r is None,
    {
        let i = scope.ast_index();
        if i >= self.steps.len() {
            return None;
        }
        match &self.steps[i].statement {
            AstStatement::MethodCall { result_variable_name: Some(n), .. } => Some(n.as_str()),
            _ => None,
        }
    }
}

} // verus!
