//! The initial user stack of a program started by `exec`: the argument
//! strings, each NUL-terminated, below the `argv` pointer array, which ends
//! with a null pointer; the stack pointer is aligned down to a word.
use vstd::prelude::*;
use vstd::utf8::encode_utf8;

verus! {

broadcast use vstd::layout::layout_of_primitives;

/// Bytes in a machine word.
pub open spec fn word() -> int {
    vstd::layout::size_of::<usize>() as int
}

/// The bytes of an argument as they are copied to the stack.
pub open spec fn arg_bytes(arg: String) -> Seq<u8> {
    encode_utf8(arg@)
}

/// Stack bytes taken by the first `k` arguments, each with its NUL.
pub open spec fn strings_space(args: Seq<String>, k: int) -> int
    decreases k,
{
    if k <= 0 {
        0
    } else {
        strings_space(args, k - 1) + arg_bytes(args[k - 1]).len() + 1
    }
}

/// Address of the `argv` array below a stack top.
pub open spec fn argv_base_of(top: int, argc: int) -> int {
    top - (argc + 1) * word()
}

/// Address at which argument `i` is copied.
pub open spec fn arg_addr(argv_base: int, args: Seq<String>, i: int) -> int {
    argv_base - strings_space(args, i + 1)
}

/// The stack pointer handed to the program: below the strings, aligned down
/// to a word.
pub open spec fn final_sp(argv_base: int, args: Seq<String>) -> int {
    let s = argv_base - strings_space(args, args.len() as int);
    s - s % word()
}

/// The byte writes that copy argument `i`: its bytes, then a NUL.
pub open spec fn arg_writes(argv_base: int, args: Seq<String>, i: int) -> Seq<(usize, u8)> {
    let b = arg_bytes(args[i]);
    let a = arg_addr(argv_base, args, i);
    Seq::new(
        b.len() + 1,
        |t: int|
            if t < b.len() {
                ((a + t) as usize, b[t])
            } else {
                ((a + t) as usize, 0u8)
            },
    )
}

/// The byte writes that copy the first `k` arguments, in order.
pub open spec fn string_writes(argv_base: int, args: Seq<String>, k: int) -> Seq<(usize, u8)>
    decreases k,
{
    if k <= 0 {
        Seq::empty()
    } else {
        string_writes(argv_base, args, k - 1) + arg_writes(argv_base, args, k - 1)
    }
}

/// The word writes that fill `argv`: first its final null pointer, then the
/// pointer to each argument, in order.
pub open spec fn argv_writes(argv_base: int, args: Seq<String>) -> Seq<(usize, usize)> {
    Seq::new(
        args.len() + 1,
        |k: int|
            if k == 0 {
                ((argv_base + args.len() * word()) as usize, 0usize)
            } else {
                (
                    (argv_base + (k - 1) * word()) as usize,
                    arg_addr(argv_base, args, k - 1) as usize,
                )
            },
    )
}

/// The stack fits below `top` without wrapping below address zero.
pub open spec fn stack_fits(top: int, args: Seq<String>) -> bool {
    (args.len() + 1) * word() + strings_space(args, args.len() as int) <= top
}

/// What `exec` writes to the new user stack, and where the program starts
/// with it.
pub struct UserStackImage {
    /// The stack pointer the program starts with.
    pub user_sp: usize,
    /// Address of `argv`, handed to the program in its second argument register.
    pub argv_base: usize,
    /// Number of arguments, handed to the program in its first argument register.
    pub argc: usize,
    /// Word writes (address, value) that fill `argv`.
    pub argv_words: Vec<(usize, usize)>,
    /// Byte writes (address, value) that copy the argument strings.
    pub string_bytes: Vec<(usize, u8)>,
}

proof fn lemma_strings_space_mono(args: Seq<String>, i: int, k: int)
    requires
        0 <= i <= k,
    ensures
        strings_space(args, i) <= strings_space(args, k),
    decreases k - i,
{
    if i < k {
        lemma_strings_space_mono(args, i, k - 1);
    }
}

proof fn lemma_word_bounds()
    ensures
        word() == 4 || word() == 8,
{
    assert(vstd::layout::size_of::<usize>() * 8 == usize::BITS);
}

/// Builds the initial user stack below `ustack_top` for the arguments `args`.
pub fn build_user_stack(ustack_top: usize, args: &Vec<String>) -> (img: UserStackImage)
    requires
        stack_fits(ustack_top as int, args@),
    ensures
        img.argc == args.len(),
        img.argv_base == argv_base_of(ustack_top as int, args.len() as int),
        img.user_sp == final_sp(img.argv_base as int, args@),
        img.argv_words@ == argv_writes(img.argv_base as int, args@),
        img.string_bytes@ == string_writes(img.argv_base as int, args@, args.len() as int),
{
    let w = core::mem::size_of::<usize>();
    proof {
        lemma_word_bounds();
        lemma_strings_space_mono(args@, 0, args.len() as int);
    }
    let argc = args.len();
    assert(w as int == word());
    assert((argc as int + 1) * (w as int) <= ustack_top);
    assert(argc + 1 <= (argc + 1) * w) by (nonlinear_arith)
        requires
            w > 0,
    ;
    let mut user_sp = ustack_top - (argc + 1) * w;
    let argv_base = user_sp;
    let mut argv_words: Vec<(usize, usize)> = Vec::new();
    assert(argc * w < (argc + 1) * w) by (nonlinear_arith)
        requires
            w > 0,
    ;
    argv_words.push((argv_base + argc * w, 0));
    let mut string_bytes: Vec<(usize, u8)> = Vec::new();
    let ghost base = argv_base as int;
    let mut i: usize = 0;
    while i < argc
        invariant
            argc == args.len(),
            w as int == word(),
            w > 0,
            base == argv_base as int,
            base == argv_base_of(ustack_top as int, argc as int),
            (argc + 1) * w <= ustack_top,
            stack_fits(ustack_top as int, args@),
            i <= argc,
            user_sp as int == base - strings_space(args@, i as int),
            argv_words@ == argv_writes(base, args@).take(i + 1),
            string_bytes@ == string_writes(base, args@, i as int),
        decreases argc - i,
    {
        let bytes = args[i].as_str().as_bytes();
        proof {
            lemma_strings_space_mono(args@, i + 1, argc as int);
            lemma_strings_space_mono(args@, 0, i as int);
            assert(strings_space(args@, i + 1) == strings_space(args@, i as int) + bytes@.len() + 1);
        }
        user_sp = user_sp - (bytes.len() + 1);
        assert(i * w < (argc + 1) * w) by (nonlinear_arith)
            requires
                w > 0,
                i < argc,
        ;
        argv_words.push((argv_base + i * w, user_sp));
        proof {
            assert(argv_words@ =~= argv_writes(base, args@).take(i + 2));
        }
        let ghost before = string_bytes@;
        let mut p = user_sp;
        let mut t: usize = 0;
        while t < bytes.len()
            invariant
                t <= bytes.len(),
                p as int == user_sp + t,
                user_sp as int == arg_addr(base, args@, i as int),
                user_sp + bytes.len() < base,
                base <= usize::MAX,
                bytes@ == arg_bytes(args@[i as int]),
                i < args.len(),
                string_bytes@ == before + arg_writes(base, args@, i as int).take(t as int),
            decreases bytes.len() - t,
        {
            string_bytes.push((p, bytes[t]));
            proof {
                assert(string_bytes@ =~= before + arg_writes(base, args@, i as int).take(t + 1));
            }
            p = p + 1;
            t = t + 1;
        }
        string_bytes.push((p, 0));
        proof {
            assert(string_bytes@ =~= before + arg_writes(base, args@, i as int));
        }
        i = i + 1;
    }
    proof {
        assert(argv_words@ =~= argv_writes(base, args@));
    }
    user_sp = user_sp - user_sp % w;
    UserStackImage { user_sp, argv_base, argc, argv_words, string_bytes }
}

proof fn lemma_string_writes_bounds(base: int, args: Seq<String>, n: int)
    requires
        0 <= n <= args.len(),
        base - strings_space(args, n) >= 0,
        base <= usize::MAX,
    ensures
        string_writes(base, args, n).len() == strings_space(args, n),
        forall|k: int|
            0 <= k < string_writes(base, args, n).len() ==> base - strings_space(args, n)
                <= #[trigger] string_writes(base, args, n)[k].0 < base,
    decreases n,
{
    if n > 0 {
        lemma_strings_space_mono(args, n - 1, n);
        lemma_string_writes_bounds(base, args, n - 1);
        let pre = string_writes(base, args, n - 1);
        let last = arg_writes(base, args, n - 1);
        let all = string_writes(base, args, n);
        assert(all == pre + last);
        assert forall|k: int| 0 <= k < all.len() implies base - strings_space(args, n)
            <= #[trigger] all[k].0 < base by {
            if k < pre.len() {
                assert(all[k] == pre[k]);
            } else {
                assert(all[k] == last[k - pre.len()]);
            }
        }
    }
}

/// Everything that `exec` writes lies within the new stack: the argument
/// strings between the final stack pointer and `argv`, the `argv` words
/// between `argv` and the top; and the final stack pointer is word-aligned.
pub proof fn law_stack_image_in_bounds(top: int, args: Seq<String>)
    requires
        0 <= top <= usize::MAX,
        stack_fits(top, args),
    ensures
        ({
            let base = argv_base_of(top, args.len() as int);
            let sp = final_sp(base, args);
            &&& 0 <= sp
            &&& sp % word() == 0
            &&& forall|k: int|
                0 <= k < string_writes(base, args, args.len() as int).len() ==> sp <= #[trigger] string_writes(
                    base,
                    args,
                    args.len() as int,
                )[k].0 < base
            &&& forall|k: int|
                0 <= k < argv_writes(base, args).len() ==> base <= #[trigger] argv_writes(base, args)[k].0
                    && argv_writes(base, args)[k].0 + word() <= top
        }),
{
    lemma_word_bounds();
    let n = args.len() as int;
    let w = word();
    let base = argv_base_of(top, n);
    lemma_strings_space_mono(args, 0, n);
    lemma_string_writes_bounds(base, args, n);
    let s = base - strings_space(args, n);
    assert(s % w <= s) by (nonlinear_arith)
        requires
            s >= 0,
            w > 0,
    ;
    assert((s - s % w) % w == 0) by (nonlinear_arith)
        requires
            s >= 0,
            w > 0,
    ;
    let aw = argv_writes(base, args);
    assert forall|k: int| 0 <= k < aw.len() implies base <= #[trigger] aw[k].0 && aw[k].0 + w
        <= top by {
        if k == 0 {
            assert(n * w + w == (n + 1) * w) by (nonlinear_arith);
            assert(0 <= n * w) by (nonlinear_arith)
                requires
                    n >= 0,
                    w > 0,
            ;
        } else {
            assert((k - 1) * w + w <= (n + 1) * w) by (nonlinear_arith)
                requires
                    1 <= k <= n,
                    w > 0,
            ;
            assert(0 <= (k - 1) * w) by (nonlinear_arith)
                requires
                    k >= 1,
                    w > 0,
            ;
        }
    }
}

} // verus!
