use vstd::prelude::*;
use vstd::string::StrSliceExecFns;
use vstd::string::StringExecFns;

verus! {

/// One instruction of the tape machine. `If` (jump when the current cell is
/// zero) and `Back` (jump back when it is non-zero) carry the resolved jump
/// target: one past the matching bracket instruction.
#[derive(Clone, Copy, PartialEq, Eq, Structural)]
pub enum Key {
    Right,
    Left,
    Add,
    Sub,
    Out,
    In,
    If(usize),
    Back(usize),
}

pub open spec fn is_if(k: Key) -> bool {
    k matches Key::If(_)
}

pub open spec fn is_back(k: Key) -> bool {
    k matches Key::Back(_)
}

/// `+1` for an opening bracket, `-1` for a closing one, `0` otherwise.
pub open spec fn char_delta(c: char) -> int {
    if c == '[' {
        1
    } else if c == ']' {
        -1
    } else {
        0
    }
}

pub open spec fn key_delta(k: Key) -> int {
    if is_if(k) {
        1
    } else if is_back(k) {
        -1
    } else {
        0
    }
}

/// Opening brackets of `s` minus closing ones.
pub open spec fn char_net(s: Seq<char>) -> int
    decreases s.len(),
{
    if s.len() == 0 {
        0
    } else {
        char_net(s.drop_last()) + char_delta(s.last())
    }
}

pub open spec fn key_net(s: Seq<Key>) -> int
    decreases s.len(),
{
    if s.len() == 0 {
        0
    } else {
        key_net(s.drop_last()) + key_delta(s.last())
    }
}

/// No prefix of `s` closes a bracket that was never opened.
pub open spec fn char_nonneg(s: Seq<char>) -> bool {
    forall|i: int| 0 <= i <= s.len() ==> char_net(#[trigger] s.take(i)) >= 0
}

pub open spec fn key_nonneg(s: Seq<Key>) -> bool {
    forall|i: int| 0 <= i <= s.len() ==> key_net(#[trigger] s.take(i)) >= 0
}

/// The brackets of `s` pair up: no prefix closes more than it has opened, and
/// the whole text closes everything it opens.
pub open spec fn balanced(s: Seq<char>) -> bool {
    char_net(s) == 0 && char_nonneg(s)
}

pub open spec fn key_balanced(s: Seq<Key>) -> bool {
    key_net(s) == 0 && key_nonneg(s)
}

/// Net bracket count of `code[a..b)`.
pub open spec fn range_net(code: Seq<Key>, a: int, b: int) -> int {
    key_net(code.subrange(a, b))
}

/// `code[a..b)` balances on its own: every bracket opened inside it closes
/// inside it, and nothing closes what was not opened there.
pub open spec fn balanced_range(code: Seq<Key>, a: int, b: int) -> bool {
    range_net(code, a, b) == 0 && forall|p: int|
        a <= p <= b ==> #[trigger] range_net(code, a, p) >= 0
}

/// The bracket instruction at `i` points one past its partner, the partner
/// points back one past `i`, and the instructions strictly between an `If`
/// and its partner balance on their own.
pub open spec fn wf_at(code: Seq<Key>, i: int) -> bool {
    match code[i] {
        Key::If(t) => i + 2 <= t <= code.len() && code[t - 1] == Key::Back((i + 1) as usize)
            && balanced_range(code, i + 1, t - 1),
        Key::Back(t) => 1 <= t <= i && code[t - 1] == Key::If((i + 1) as usize),
        _ => true,
    }
}

/// Every jump target resolved, mutually, to its matching bracket.
pub open spec fn wf_program(code: Seq<Key>) -> bool {
    forall|i: int| 0 <= i < code.len() ==> #[trigger] wf_at(code, i)
}

/// `j` is the closing bracket matching the opening bracket at `i`: the
/// instructions strictly between them balance on their own.
pub open spec fn is_match(code: Seq<Key>, i: int, j: int) -> bool {
    0 <= i < j < code.len() && is_if(code[i]) && is_back(code[j]) && balanced_range(
        code,
        i + 1,
        j,
    )
}

/// First compilation pass: the keys emitted for `s`, jump targets still
/// unresolved (zero). A closing bracket whose immediately preceding emitted
/// key is an unresolved opening bracket elides the pair.
pub open spec fn scan(s: Seq<char>) -> Seq<Key>
    decreases s.len(),
{
    if s.len() == 0 {
        Seq::empty()
    } else {
        let pre = scan(s.drop_last());
        let c = s.last();
        if c == '>' {
            pre.push(Key::Right)
        } else if c == '<' {
            pre.push(Key::Left)
        } else if c == '+' {
            pre.push(Key::Add)
        } else if c == '-' {
            pre.push(Key::Sub)
        } else if c == '.' {
            pre.push(Key::Out)
        } else if c == ',' {
            pre.push(Key::In)
        } else if c == '[' {
            pre.push(Key::If(0usize))
        } else if c == ']' {
            if pre.len() > 0 && is_if(pre.last()) {
                pre.drop_last()
            } else {
                pre.push(Key::Back(0usize))
            }
        } else {
            pre
        }
    }
}

/// Both keys are opening brackets, both are closing ones, or they are the
/// same non-bracket key.
pub open spec fn same_shape(a: Key, b: Key) -> bool {
    (is_if(a) <==> is_if(b)) && (is_back(a) <==> is_back(b)) && (!is_if(a) && !is_back(a) ==> a
        == b)
}

pub open spec fn syntax_error_msg() -> Seq<char> {
    "Brainfxxk source syntax error!"@
}

proof fn lemma_key_net_concat(a: Seq<Key>, b: Seq<Key>)
    ensures
        key_net(a + b) == key_net(a) + key_net(b),
    decreases b.len(),
{
    if b.len() == 0 {
        assert(a + b =~= a);
    } else {
        lemma_key_net_concat(a, b.drop_last());
        assert((a + b).drop_last() =~= a + b.drop_last());
        assert((a + b).last() == b.last());
    }
}

proof fn lemma_range_net_split(code: Seq<Key>, a: int, m: int, b: int)
    requires
        0 <= a <= m <= b <= code.len(),
    ensures
        range_net(code, a, b) == range_net(code, a, m) + range_net(code, m, b),
{
    assert(code.subrange(a, b) =~= code.subrange(a, m) + code.subrange(m, b));
    lemma_key_net_concat(code.subrange(a, m), code.subrange(m, b));
}

proof fn lemma_range_net_empty(code: Seq<Key>, a: int)
    requires
        0 <= a <= code.len(),
    ensures
        range_net(code, a, a) == 0,
{
    assert(code.subrange(a, a) =~= Seq::<Key>::empty());
}

proof fn lemma_range_net_one(code: Seq<Key>, a: int)
    requires
        0 <= a < code.len(),
    ensures
        range_net(code, a, a + 1) == key_delta(code[a]),
{
    let s = code.subrange(a, a + 1);
    assert(s.len() == 1);
    assert(key_net(s) == key_net(s.drop_last()) + key_delta(s.last()));
    assert(s.drop_last() =~= Seq::<Key>::empty());
    assert(key_net(Seq::<Key>::empty()) == 0);
    assert(s.last() == code[a]);
}

proof fn lemma_range_net_step(code: Seq<Key>, a: int, b: int)
    requires
        0 <= a <= b < code.len(),
    ensures
        range_net(code, a, b + 1) == range_net(code, a, b) + key_delta(code[b]),
{
    lemma_range_net_split(code, a, b, b + 1);
    lemma_range_net_one(code, b);
}

/// `range_net` from zero is the net of the prefix.
proof fn lemma_range_net_prefix(code: Seq<Key>, p: int)
    requires
        0 <= p <= code.len(),
    ensures
        range_net(code, 0, p) == key_net(code.take(p)),
{
    assert(code.subrange(0, p) =~= code.take(p));
}

proof fn lemma_char_nonneg_push(s: Seq<char>)
    requires
        s.len() > 0,
    ensures
        char_nonneg(s) <==> (char_nonneg(s.drop_last()) && char_net(s) >= 0),
{
    let u = s.drop_last();
    if char_nonneg(s) {
        assert forall|i: int| 0 <= i <= u.len() implies char_net(#[trigger] u.take(i)) >= 0 by {
            assert(u.take(i) =~= s.take(i));
        }
        assert(s.take(s.len() as int) =~= s);
    }
    if char_nonneg(u) && char_net(s) >= 0 {
        assert forall|i: int| 0 <= i <= s.len() implies char_net(#[trigger] s.take(i)) >= 0 by {
            if i < s.len() {
                assert(s.take(i) =~= u.take(i));
            } else {
                assert(s.take(i) =~= s);
            }
        }
    }
}

proof fn lemma_key_nonneg_push(s: Seq<Key>)
    requires
        s.len() > 0,
    ensures
        key_nonneg(s) <==> (key_nonneg(s.drop_last()) && key_net(s) >= 0),
{
    let u = s.drop_last();
    if key_nonneg(s) {
        assert forall|i: int| 0 <= i <= u.len() implies key_net(#[trigger] u.take(i)) >= 0 by {
            assert(u.take(i) =~= s.take(i));
        }
        assert(s.take(s.len() as int) =~= s);
    }
    if key_nonneg(u) && key_net(s) >= 0 {
        assert forall|i: int| 0 <= i <= s.len() implies key_net(#[trigger] s.take(i)) >= 0 by {
            if i < s.len() {
                assert(s.take(i) =~= u.take(i));
            } else {
                assert(s.take(i) =~= s);
            }
        }
    }
}

/// Every unresolved bracket emitted by the first pass carries target zero.
proof fn lemma_scan_placeholders(s: Seq<char>)
    ensures
        forall|p: int|
            0 <= p < scan(s).len() ==> (is_if(#[trigger] scan(s)[p]) ==> scan(s)[p] == Key::If(
                0usize,
            )) && (is_back(scan(s)[p]) ==> scan(s)[p] == Key::Back(0usize)),
    decreases s.len(),
{
    if s.len() > 0 {
        lemma_scan_placeholders(s.drop_last());
    }
}

/// The first pass keeps the bracket profile of the source: the nets agree,
/// and one side stays prefix-nonnegative exactly when the other does.
proof fn lemma_scan_net(s: Seq<char>)
    ensures
        key_net(scan(s)) == char_net(s),
        char_nonneg(s) <==> key_nonneg(scan(s)),
    decreases s.len(),
{
    if s.len() == 0 {
        assert forall|i: int| 0 <= i <= s.len() implies char_net(#[trigger] s.take(i)) >= 0 by {
            assert(s.take(i) =~= s);
        }
        assert forall|i: int| 0 <= i <= scan(s).len() implies key_net(
            #[trigger] scan(s).take(i),
        ) >= 0 by {
            assert(scan(s).take(i) =~= scan(s));
        }
    } else {
        let u = s.drop_last();
        let c = s.last();
        let pre = scan(u);
        let out = scan(s);
        lemma_scan_net(u);
        lemma_char_nonneg_push(s);
        if c == ']' && pre.len() > 0 && is_if(pre.last()) {
            // the pair is elided: the emitted keys lose their trailing `If`
            assert(out =~= pre.drop_last());
            assert(key_net(pre) == key_net(out) + 1);
            lemma_key_nonneg_push(pre);
            if key_nonneg(out) {
                assert(out.take(out.len() as int) =~= out);
                assert(key_net(out) >= 0);
                assert(key_net(pre) >= 0);
            }
            assert(key_nonneg(pre) <==> key_nonneg(out));
        } else if char_delta(c) != 0 || c == '>' || c == '<' || c == '+' || c == '-' || c == '.'
            || c == ',' {
            // one key is pushed, with the same bracket delta as the character
            assert(out.drop_last() =~= pre);
            assert(key_delta(out.last()) == char_delta(c));
            lemma_key_nonneg_push(out);
        } else {
            // the character is a comment: nothing is emitted
            assert(out =~= pre);
            if char_nonneg(u) {
                assert(u.take(u.len() as int) =~= u);
                assert(char_net(u) >= 0);
            }
        }
    }
}

/// What the first pass emits is balanced exactly when the source is.
proof fn lemma_scan_balanced(s: Seq<char>)
    ensures
        balanced(s) <==> key_balanced(scan(s)),
{
    lemma_scan_net(s);
}

proof fn lemma_net_same_shape(a: Seq<Key>, b: Seq<Key>)
    requires
        a.len() == b.len(),
        forall|i: int| 0 <= i < a.len() ==> same_shape(#[trigger] a[i], b[i]),
    ensures
        key_net(a) == key_net(b),
    decreases a.len(),
{
    if a.len() > 0 {
        lemma_net_same_shape(a.drop_last(), b.drop_last());
    }
}

proof fn lemma_balanced_range_same_shape(a: Seq<Key>, b: Seq<Key>, lo: int, hi: int)
    requires
        a.len() == b.len(),
        forall|i: int| 0 <= i < a.len() ==> same_shape(#[trigger] a[i], b[i]),
        0 <= lo <= hi <= a.len(),
        balanced_range(b, lo, hi),
    ensures
        balanced_range(a, lo, hi),
{
    assert forall|p: int| lo <= p <= hi implies #[trigger] range_net(a, lo, p) == range_net(
        b,
        lo,
        p,
    ) by {
        lemma_net_same_shape(a.subrange(lo, p), b.subrange(lo, p));
    }
    assert(range_net(a, lo, hi) == range_net(b, lo, hi));
}

/// Joining two balanced stretches around their bracket pair: with `k[j]` an
/// opening bracket, `k[b]` a closing one, and both `k[a..j)` and `k[j+1..b)`
/// balanced, the whole stretch `k[a..b+1)` balances.
proof fn lemma_join_segments(k: Seq<Key>, a: int, j: int, b: int)
    requires
        0 <= a <= j,
        j + 1 <= b < k.len(),
        balanced_range(k, a, j),
        balanced_range(k, j + 1, b),
        is_if(k[j]),
        is_back(k[b]),
    ensures
        balanced_range(k, a, b + 1),
{
    lemma_range_net_one(k, j);
    lemma_range_net_one(k, b);
    assert forall|p: int| a <= p <= b + 1 implies #[trigger] range_net(k, a, p) >= 0 by {
        if p <= j {
            assert(range_net(k, a, p) >= 0);
        } else if p == j + 1 {
            lemma_range_net_split(k, a, j, p);
        } else if p <= b {
            lemma_range_net_split(k, a, j, p);
            lemma_range_net_split(k, j, j + 1, p);
            assert(range_net(k, j + 1, p) >= 0);
        } else {
            lemma_range_net_split(k, a, j, p);
            lemma_range_net_split(k, j, j + 1, p);
            lemma_range_net_split(k, j + 1, b, p);
        }
    }
    lemma_range_net_split(k, a, j, b + 1);
    lemma_range_net_split(k, j, j + 1, b + 1);
    lemma_range_net_split(k, j + 1, b, b + 1);
}

/// Lower bound of the stretch that ends at the `m`-th open bracket of the
/// resolution stack (or, for `m` equal to the stack length, of the open
/// stretch behind the scan position).
spec fn seg_lo(stack: Seq<usize>, m: int) -> int {
    if m == 0 {
        0
    } else {
        stack[m - 1] + 1
    }
}

/// The closing bracket at `p` points mutually at an opening bracket before it.
spec fn resolved_back(code: Seq<Key>, p: int) -> bool {
    code[p] matches Key::Back(t) && 1 <= t <= p && code[t - 1] == Key::If((p + 1) as usize)
}

/// The opening bracket at `p` points mutually at a closing bracket before
/// `bound`, with a balanced interior.
spec fn resolved_if(code: Seq<Key>, k: Seq<Key>, p: int, bound: int) -> bool {
    code[p] matches Key::If(t) && p + 2 <= t <= bound && code[t - 1] == Key::Back(
        (p + 1) as usize,
    ) && balanced_range(k, p + 1, t - 1)
}

/// The `m`-th stack entry is an unresolved opening bracket before `idx`,
/// and the stretch between it and the previous entry is balanced.
spec fn stack_entry_ok(code: Seq<Key>, k: Seq<Key>, stack: Seq<usize>, m: int, idx: int) -> bool {
    &&& stack[m] < idx
    &&& code[stack[m] as int] == Key::If(0usize)
    &&& balanced_range(k, seg_lo(stack, m), stack[m] as int)
}

/// Every bracket before `idx` is either resolved or still open on the stack.
spec fn pos_ok(code: Seq<Key>, k: Seq<Key>, stack: Seq<usize>, p: int, idx: int) -> bool {
    &&& (is_back(k[p]) ==> resolved_back(code, p))
    &&& (is_if(k[p]) ==> (code[p] == Key::If(0usize) && stack.contains(p as usize)) || resolved_if(
        code,
        k,
        p,
        idx,
    ))
}

/// In a well-formed program every opening jump's target is one past its
/// matching closing jump, and the closing jump's target is one past the
/// opening one.
pub proof fn lemma_jump_targets_match(code: Seq<Key>, i: int, j: int)
    requires
        wf_program(code),
        is_match(code, i, j),
    ensures
        code[i] == Key::If((j + 1) as usize),
        code[j] == Key::Back((i + 1) as usize),
{
    assert(wf_at(code, i));
    let t = code[i]->If_0 as int;
    // the partner recorded by well-formedness is t - 1; show j == t - 1
    if j < t - 1 {
        // then the interior of the pair (i, t-1) dips below zero at j + 1
        lemma_range_net_split(code, i + 1, j, j + 1);
        lemma_range_net_one(code, j);
        assert(range_net(code, i + 1, j + 1) == -1);
        assert(range_net(code, i + 1, j + 1) >= 0);
    }
    if j > t - 1 {
        // then the interior of the match (i, j) dips below zero at t
        lemma_range_net_split(code, i + 1, t - 1, t);
        lemma_range_net_one(code, t - 1);
        assert(range_net(code, i + 1, t) == -1);
        assert(range_net(code, i + 1, t) >= 0);
    }
}

/// The character that displays a key.
pub open spec fn key_char(k: Key) -> char {
    match k {
        Key::Right => '>',
        Key::Left => '<',
        Key::Add => '+',
        Key::Sub => '-',
        Key::Out => '.',
        Key::In => ',',
        Key::If(_) => '[',
        Key::Back(_) => ']',
    }
}

/// The display character for column `p` of a program window: the key's
/// character, or a blank past the end of the program.
pub open spec fn window_char(code: Seq<Key>, p: int) -> char {
    if 0 <= p < code.len() {
        key_char(code[p])
    } else {
        ' '
    }
}

/// A window of `width` columns starting at `left`: one display character per
/// instruction, separated by single spaces, blank past the program's end.
pub open spec fn program_window(code: Seq<Key>, left: int, width: int) -> Seq<char>
    decreases width,
{
    if width <= 0 {
        Seq::empty()
    } else if width == 1 {
        seq![window_char(code, left)]
    } else {
        program_window(code, left, width - 1) + seq![' ', window_char(code, left + width - 1)]
    }
}

/// An immutable, jump-resolved instruction sequence.
pub struct Program {
    code: Vec<Key>,
}

impl View for Program {
    type V = Seq<Key>;

    closed spec fn view(&self) -> Seq<Key> {
        self.code@
    }
}

impl Program {
    /// Every jump target resolved, mutually, to its matching bracket.
    pub open spec fn wf(self) -> bool {
        wf_program(self@)
    }

    /// Compiles source text. A key is emitted for each of the eight
    /// significant characters, all others are ignored, and an empty bracket
    /// pair is elided; then jump targets are resolved with a stack of open
    /// brackets. Succeeds exactly on bracket-balanced source.
    pub fn from(source: String) -> (r: Result<Program, String>)
        ensures
            r is Ok <==> balanced(source@),
            r matches Ok(p) ==> p.wf() && p@.len() == scan(source@).len() && (forall|i: int|
                0 <= i < p@.len() ==> same_shape(#[trigger] p@[i], scan(source@)[i])),
            r matches Err(e) ==> e@ == syntax_error_msg(),
    {
        let s = source.as_str();
        let n = s.unicode_len();
        let mut code: Vec<Key> = Vec::new();
        let mut i: usize = 0;
        while i < n
            invariant
                n == source@.len(),
                i <= n,
                s@ == source@,
                code@ == scan(source@.take(i as int)),
            decreases n - i,
        {
            let c = s.get_char(i);
            proof {
                assert(source@.take(i + 1).drop_last() =~= source@.take(i as int));
                assert(source@.take(i + 1).last() == source@[i as int]);
            }
            match c {
                '>' => code.push(Key::Right),
                '<' => code.push(Key::Left),
                '+' => code.push(Key::Add),
                '-' => code.push(Key::Sub),
                '.' => code.push(Key::Out),
                ',' => code.push(Key::In),
                '[' => code.push(Key::If(0)),
                ']' => {
                    let l = code.len();
                    let mut elide = false;
                    if l > 0 {
                        match code[l - 1] {
                            Key::If(_) => {
                                elide = true;
                            },
                            _ => {},
                        }
                    }
                    if elide {
                        let ghost pre = code@;
                        let _ = code.pop();
                        proof {
                            assert(pre.len() > 0 && is_if(pre.last()));
                            assert(code@ =~= pre.drop_last());
                        }
                    } else {
                        code.push(Key::Back(0));
                    }
                },
                _ => {},
            }
            assert(code@ == scan(source@.take(i + 1)));
            i = i + 1;
        }
        proof {
            assert(source@.take(n as int) =~= source@);
        }
        let ghost k = code@;
        proof {
            lemma_scan_placeholders(source@);
            lemma_range_net_empty(k, 0);
        }
        let count = code.len();
        let mut stack: Vec<usize> = Vec::new();
        let mut idx: usize = 0;
        while idx < count
            invariant
                count == code@.len(),
                code@.len() == k.len(),
                idx <= count,
                k == scan(source@),
                forall|p: int| idx <= p < k.len() ==> code@[p] == k[p],
                forall|p: int| 0 <= p < k.len() ==> same_shape(#[trigger] code@[p], k[p]),
                forall|p: int|
                    0 <= p < k.len() ==> (is_if(#[trigger] k[p]) ==> k[p] == Key::If(0usize)) && (
                    is_back(k[p]) ==> k[p] == Key::Back(0usize)),
                forall|m: int|
                    0 <= m < stack@.len() ==> #[trigger] stack_entry_ok(
                        code@,
                        k,
                        stack@,
                        m,
                        idx as int,
                    ),
                forall|m1: int, m2: int|
                    0 <= m1 < m2 < stack@.len() ==> stack@[m1] < stack@[m2],
                stack@.len() == range_net(k, 0, idx as int),
                forall|p: int| 0 <= p <= idx ==> #[trigger] range_net(k, 0, p) >= 0,
                balanced_range(k, seg_lo(stack@, stack@.len() as int), idx as int),
                forall|p: int|
                    0 <= p < idx ==> #[trigger] pos_ok(code@, k, stack@, p, idx as int),
            decreases count - idx,
        {
            let ghost code0 = code@;
            let ghost stack0 = stack@;
            let key = code[idx];
            match key {
                Key::If(_) => {
                    proof {
                        assert(code@[idx as int] == k[idx as int]);
                        assert(k[idx as int] == Key::If(0usize));
                    }
                    stack.push(idx);
                    proof {
                        lemma_range_net_step(k, 0, idx as int);
                        lemma_range_net_empty(k, idx + 1);
                        assert(seg_lo(stack@, stack@.len() as int) == idx + 1);
                        assert(balanced_range(k, idx + 1, idx + 1));
                        assert forall|m: int| 0 <= m < stack@.len() implies #[trigger] stack_entry_ok(
                            code@,
                            k,
                            stack@,
                            m,
                            idx + 1,
                        ) by {
                            if m < stack0.len() {
                                assert(stack_entry_ok(code@, k, stack0, m, idx as int));
                                assert(stack@[m] == stack0[m]);
                                assert(seg_lo(stack@, m) == seg_lo(stack0, m));
                            } else {
                                assert(stack@[m] == idx);
                                assert(seg_lo(stack@, m) == seg_lo(stack0, stack0.len() as int));
                            }
                        }
                        assert forall|m1: int, m2: int|
                            0 <= m1 < m2 < stack@.len() implies stack@[m1] < stack@[m2] by {
                            assert(stack_entry_ok(code@, k, stack0, m1, idx as int));
                            if m2 < stack0.len() {
                                assert(stack@[m1] == stack0[m1]);
                                assert(stack@[m2] == stack0[m2]);
                            } else {
                                assert(stack@[m2] == idx);
                            }
                        }
                        assert forall|p: int| 0 <= p < idx + 1 implies #[trigger] pos_ok(
                            code@,
                            k,
                            stack@,
                            p,
                            idx + 1,
                        ) by {
                            if p < idx {
                                assert(pos_ok(code@, k, stack0, p, idx as int));
                                if is_if(k[p]) && code@[p] == Key::If(0usize) && stack0.contains(
                                    p as usize,
                                ) {
                                    let m = choose|m: int|
                                        0 <= m < stack0.len() && stack0[m] == p as usize;
                                    assert(stack@[m] == p as usize);
                                    assert(stack@.contains(p as usize));
                                }
                            } else {
                                assert(stack@[stack@.len() - 1] == idx);
                                assert(stack@.contains(idx));
                                assert(code@[p] == Key::If(0usize));
                            }
                        }
                    }
                },
                Key::Back(_) => {
                    proof {
                        assert(code@[idx as int] == k[idx as int]);
                        assert(is_back(k[idx as int]));
                        lemma_range_net_step(k, 0, idx as int);
                    }
                    match stack.pop() {
                        None => {
                            proof {
                                assert(range_net(k, 0, idx as int) == 0);
                                assert(range_net(k, 0, idx + 1) == -1);
                                lemma_range_net_prefix(k, idx + 1);
                                assert(key_net(k.take(idx + 1)) == -1);
                                assert(!key_nonneg(k));
                                lemma_scan_balanced(source@);
                                assert(!balanced(source@));
                            }
                            return Err(String::from_str("Brainfxxk source syntax error!"));
                        },
                        Some(j) => {
                            proof {
                                assert(stack_entry_ok(
                                    code0,
                                    k,
                                    stack0,
                                    stack0.len() - 1,
                                    idx as int,
                                ));
                                assert(j == stack0[stack0.len() - 1]);
                                assert(j < idx);
                                assert(code0[j as int] == Key::If(0usize));
                                assert(is_if(k[j as int]));
                            }
                            code.set(j, Key::If(idx + 1));
                            code.set(idx, Key::Back(j + 1));
                            proof {
                                let ghost code1 = code@;
                                let ghost stack1 = stack@;
                                assert(stack1 =~= stack0.drop_last());
                                let a = seg_lo(stack0, stack0.len() - 1);
                                assert(balanced_range(k, a, j as int));
                                assert(balanced_range(k, j + 1, idx as int));
                                lemma_join_segments(k, a, j as int, idx as int);
                                assert(balanced_range(k, a, idx + 1));
                                assert(seg_lo(stack1, stack1.len() as int) == a);
                                assert forall|m: int|
                                    0 <= m < stack1.len() implies #[trigger] stack_entry_ok(
                                    code1,
                                    k,
                                    stack1,
                                    m,
                                    idx + 1,
                                ) by {
                                    assert(stack_entry_ok(code0, k, stack0, m, idx as int));
                                    assert(stack1[m] == stack0[m]);
                                    assert(stack0[m] < j as int);
                                    assert(seg_lo(stack1, m) == seg_lo(stack0, m));
                                    assert(code1[stack1[m] as int] == code0[stack0[m] as int]);
                                }
                                assert forall|m1: int, m2: int|
                                    0 <= m1 < m2 < stack1.len() implies stack1[m1]
                                    < stack1[m2] by {
                                    assert(stack1[m1] == stack0[m1]);
                                    assert(stack1[m2] == stack0[m2]);
                                }
                                assert forall|p: int|
                                    0 <= p < k.len() implies same_shape(
                                    #[trigger] code1[p],
                                    k[p],
                                ) by {
                                    if p == j as int {
                                        assert(is_if(k[p]));
                                    } else if p == idx as int {
                                        assert(is_back(k[p]));
                                    } else {
                                        assert(code1[p] == code0[p]);
                                    }
                                }
                                assert forall|p: int| 0 <= p < idx + 1 implies #[trigger] pos_ok(
                                    code1,
                                    k,
                                    stack1,
                                    p,
                                    idx + 1,
                                ) by {
                                    if p == idx as int {
                                        assert(code1[p] == Key::Back((j + 1) as usize));
                                        assert(code1[j as int] == Key::If((idx + 1) as usize));
                                        assert(resolved_back(code1, p));
                                    } else if p == j as int {
                                        assert(code1[p] == Key::If((idx + 1) as usize));
                                        assert(code1[idx as int] == Key::Back((j + 1) as usize));
                                        assert(resolved_if(code1, k, p, idx + 1));
                                    } else {
                                        assert(pos_ok(code0, k, stack0, p, idx as int));
                                        assert(code1[p] == code0[p]);
                                        if is_back(k[p]) {
                                            assert(resolved_back(code0, p));
                                            let t = code0[p]->Back_0 as int;
                                            assert(code0[t - 1] == Key::If((p + 1) as usize));
                                            assert(t - 1 != j as int);
                                            assert(code1[t - 1] == code0[t - 1]);
                                            assert(resolved_back(code1, p));
                                        }
                                        if is_if(k[p]) {
                                            if code0[p] == Key::If(0usize) && stack0.contains(
                                                p as usize,
                                            ) {
                                                let m = choose|m: int|
                                                    0 <= m < stack0.len() && stack0[m]
                                                        == p as usize;
                                                assert(m < stack0.len() - 1);
                                                assert(stack1[m] == p as usize);
                                                assert(stack1.contains(p as usize));
                                                assert(code1[p] == Key::If(0usize));
                                            } else {
                                                assert(resolved_if(code0, k, p, idx as int));
                                                let t = code0[p]->If_0 as int;
                                                assert(code0[t - 1] == Key::Back(
                                                    (p + 1) as usize,
                                                ));
                                                assert(t - 1 != j as int);
                                                assert(t - 1 != idx as int);
                                                assert(code1[t - 1] == code0[t - 1]);
                                                assert(resolved_if(code1, k, p, idx + 1));
                                            }
                                        }
                                    }
                                }
                            }
                        },
                    }
                },
                _ => {
                    proof {
                        assert(code@[idx as int] == k[idx as int]);
                        assert(!is_if(k[idx as int]) && !is_back(k[idx as int]));
                        lemma_range_net_step(k, 0, idx as int);
                        let a = seg_lo(stack@, stack@.len() as int);
                        if stack@.len() > 0 {
                            assert(stack_entry_ok(code@, k, stack@, stack@.len() - 1, idx as int));
                        }
                        assert(0 <= a <= idx as int);
                        lemma_range_net_step(k, a, idx as int);
                        assert forall|p: int| a <= p <= idx + 1 implies #[trigger] range_net(
                            k,
                            a,
                            p,
                        ) >= 0 by {
                            if p <= idx as int {
                                assert(range_net(k, a, p) >= 0);
                            }
                        }
                        assert(balanced_range(k, a, idx + 1));
                        assert forall|m: int| 0 <= m < stack@.len() implies #[trigger] stack_entry_ok(
                            code@,
                            k,
                            stack@,
                            m,
                            idx + 1,
                        ) by {
                            assert(stack_entry_ok(code@, k, stack@, m, idx as int));
                        }
                        assert forall|p: int| 0 <= p < idx + 1 implies #[trigger] pos_ok(
                            code@,
                            k,
                            stack@,
                            p,
                            idx + 1,
                        ) by {
                            if p < idx {
                                assert(pos_ok(code@, k, stack@, p, idx as int));
                            }
                        }
                    }
                },
            }
            idx = idx + 1;
        }
        if stack.len() != 0 {
            proof {
                lemma_range_net_prefix(k, count as int);
                assert(k.take(count as int) =~= k);
                assert(key_net(k) != 0);
                lemma_scan_balanced(source@);
                assert(!balanced(source@));
            }
            return Err(String::from_str("Brainfxxk source syntax error!"));
        }
        proof {
            assert(balanced_range(k, 0, count as int));
            assert forall|p: int| 0 <= p <= k.len() implies key_net(#[trigger] k.take(p)) >= 0 by {
                lemma_range_net_prefix(k, p);
                assert(range_net(k, 0, p) >= 0);
            }
            lemma_range_net_prefix(k, count as int);
            assert(k.take(count as int) =~= k);
            assert(key_balanced(k));
            lemma_scan_balanced(source@);
            assert(balanced(source@));
            assert forall|p: int| 0 <= p < code@.len() implies #[trigger] wf_at(code@, p) by {
                assert(pos_ok(code@, k, stack@, p, count as int));
                if is_if(k[p]) {
                    assert(!stack@.contains(p as usize));
                    assert(resolved_if(code@, k, p, count as int));
                    let t = code@[p]->If_0 as int;
                    lemma_balanced_range_same_shape(code@, k, p + 1, t - 1);
                } else if is_back(k[p]) {
                    assert(resolved_back(code@, p));
                } else {
                    assert(code@[p] == k[p]);
                }
            }
            assert(wf_program(code@));
        }
        Ok(Program { code })
    }

    /// The instruction at `index`, when it is on the program.
    pub fn get(&self, index: usize) -> (r: Option<&Key>)
        ensures
            index < self@.len() ==> (r matches Some(key) && *key == self@[index as int]),
            index >= self@.len() ==> r is None,
    {
        if index < self.code.len() {
            Some(&self.code[index])
        } else {
            None
        }
    }

    pub fn len(&self) -> (n: usize)
        ensures
            n == self@.len(),
    {
        self.code.len()
    }

    /// Renders the window of `width` instructions starting at `left`, for
    /// the code line of the display.
    pub fn slice_string(&self, left: usize, width: usize) -> (out: String)
        requires
            left + width <= usize::MAX,
        ensures
            out@ == program_window(self@, left as int, width as int),
    {
        let mut out = String::new();
        let mut p = left;
        while p < left + width
            invariant
                left <= p <= left + width,
                left + width <= usize::MAX,
                out@ == program_window(self@, left as int, p - left),
            decreases left + width - p,
        {
            if p > left {
                crate::push_char(&mut out, ' ');
            }
            let c: char;
            if p < self.code.len() {
                c = match self.code[p] {
                    Key::Right => '>',
                    Key::Left => '<',
                    Key::Add => '+',
                    Key::Sub => '-',
                    Key::Out => '.',
                    Key::In => ',',
                    Key::If(_) => '[',
                    Key::Back(_) => ']',
                };
            } else {
                c = ' ';
            }
            crate::push_char(&mut out, c);
            proof {
                assert(c == window_char(self@, p as int));
                assert(out@ =~= program_window(self@, left as int, p - left + 1));
            }
            p = p + 1;
        }
        out
    }
}

} // verus!
