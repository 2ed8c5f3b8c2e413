//! Command-line arguments: positional ones, and flags with or without a
//! value.

#[allow(unused_imports)]
use vstd::arithmetic::power::pow;
use vstd::prelude::*;
use vstd::string::*;

verus! {

/// Arguments sorted out.
pub struct Args {
    /// What is not a flag, in order.
    pub positional: Vec<String>,
    /// The flags, in order, without their dashes; each with the argument that
    /// follows it if it takes one and there is one.
    pub flags: Vec<(String, Option<String>)>,
}

/// The same as mathematics.
#[verifier::ext_equal]
pub struct ArgList {
    pub positional: Seq<Seq<char>>,
    pub flags: Seq<(Seq<char>, Option<Seq<char>>)>,
}

impl View for Args {
    type V = ArgList;

    open spec fn view(&self) -> ArgList {
        ArgList {
            positional: texts(self.positional@),
            flags: Seq::new(
                self.flags@.len(),
                |i: int| (self.flags@[i].0@, text_of(self.flags@[i].1)),
            ),
        }
    }
}

/// The text of each string.
pub open spec fn texts(v: Seq<String>) -> Seq<Seq<char>> {
    Seq::new(v.len(), |i: int| v[i]@)
}

/// The text of a string, if there is one.
pub open spec fn text_of(s: Option<String>) -> Option<Seq<char>> {
    match s {
        Some(t) => Some(t@),
        None => None,
    }
}

/// An argument with two dashes in front.
pub open spec fn is_flag(a: Seq<char>) -> bool {
    a.len() >= 2 && a[0] == '-' && a[1] == '-'
}

/// A flag's name.
pub open spec fn name_of(a: Seq<char>) -> Seq<char> {
    a.subrange(2, a.len() as int)
}

/// The flags that stand alone.
pub open spec fn stands_alone(name: Seq<char>) -> bool {
    name == "no-baselines"@ || name == "keep"@ || name == "allow-small"@ || name == "help"@
}

impl ArgList {
    /// No arguments.
    pub open spec fn none() -> Self {
        ArgList { positional: Seq::empty(), flags: Seq::empty() }
    }

    /// The arguments from `i` on sorted in. A flag that takes a value takes
    /// the next argument, whatever it is.
    pub open spec fn sorted(self, argv: Seq<Seq<char>>, i: int) -> Self
        decreases argv.len() + 1 - i,
    {
        if i < 0 || i >= argv.len() {
            self
        } else if !is_flag(argv[i]) {
            ArgList { positional: self.positional.push(argv[i]), ..self }.sorted(argv, i + 1)
        } else if stands_alone(name_of(argv[i])) {
            ArgList { flags: self.flags.push((name_of(argv[i]), None)), ..self }.sorted(
                argv,
                i + 1,
            )
        } else {
            let value = if i + 1 < argv.len() {
                Some(argv[i + 1])
            } else {
                None
            };
            ArgList { flags: self.flags.push((name_of(argv[i]), value)), ..self }.sorted(
                argv,
                i + 2,
            )
        }
    }

    /// The flag was given, and here is the first place.
    pub open spec fn first(self, name: Seq<char>, i: int) -> bool {
        &&& 0 <= i < self.flags.len()
        &&& self.flags[i].0 == name
        &&& forall|j: int| 0 <= j < i ==> (#[trigger] self.flags[j]).0 != name
    }

    /// The flag was given.
    pub open spec fn gives(self, name: Seq<char>) -> bool {
        exists|i: int| 0 <= i < self.flags.len() && (#[trigger] self.flags[i]).0 == name
    }
}

/// A flag that was given counts where it was first given, however often it
/// comes again behind.
pub proof fn law_the_first_flag_counts(a: ArgList, name: Seq<char>, i: int, j: int)
    requires
        0 <= j < a.flags.len(),
        a.flags[j].0 == name,
    ensures
        a.first(name, i) ==> i <= j,
        (forall|k: int| 0 <= k < j ==> (#[trigger] a.flags[k]).0 != name) ==> a.first(name, j),
        a.gives(name),
        exists|k: int| #[trigger] a.first(name, k),
    decreases j,
{
    if !a.first(name, j) {
        let k = choose|k: int| 0 <= k < j && (#[trigger] a.flags[k]).0 == name;
        law_the_first_flag_counts(a, name, i, k);
    }
}

/// How many flags have a value.
pub open spec fn with_value(flags: Seq<(Seq<char>, Option<Seq<char>>)>) -> nat
    decreases flags.len(),
{
    if flags.len() == 0 {
        0
    } else {
        with_value(flags.drop_last()) + if flags.last().1 is Some {
            1nat
        } else {
            0nat
        }
    }
}

/// Nothing is lost and nothing made up: every argument is a positional one, a
/// flag, or the value of a flag.
pub proof fn law_every_argument_counts(a: ArgList, argv: Seq<Seq<char>>, i: int)
    requires
        0 <= i <= argv.len(),
    ensures
        ({
            let r = a.sorted(argv, i);
            r.positional.len() + r.flags.len() + with_value(r.flags) == a.positional.len()
                + a.flags.len() + with_value(a.flags) + argv.len() - i
        }),
    decreases argv.len() - i,
{
    if i < argv.len() {
        if !is_flag(argv[i]) {
            law_every_argument_counts(
                ArgList { positional: a.positional.push(argv[i]), ..a },
                argv,
                i + 1,
            );
        } else {
            let alone = stands_alone(name_of(argv[i]));
            let value = if !alone && i + 1 < argv.len() {
                Some(argv[i + 1])
            } else {
                None
            };
            let f = a.flags.push((name_of(argv[i]), value));
            assert(f.drop_last() =~= a.flags);
            let b = ArgList { flags: f, ..a };
            if alone {
                law_every_argument_counts(b, argv, i + 1);
            } else if i + 1 < argv.len() {
                law_every_argument_counts(b, argv, i + 2);
            } else {
                assert(b.sorted(argv, i + 2) == b);
            }
        }
    }
}

/// What was sorted in stays, in its place.
proof fn lemma_sorted_extends(a: ArgList, argv: Seq<Seq<char>>, i: int)
    requires
        0 <= i,
    ensures
        a.positional.is_prefix_of(a.sorted(argv, i).positional),
        a.flags.is_prefix_of(a.sorted(argv, i).flags),
    decreases argv.len() + 1 - i,
{
    if i < argv.len() {
        let (b, next) = if !is_flag(argv[i]) {
            (ArgList { positional: a.positional.push(argv[i]), ..a }, i + 1)
        } else if stands_alone(name_of(argv[i])) {
            (ArgList { flags: a.flags.push((name_of(argv[i]), None)), ..a }, i + 1)
        } else {
            let value = if i + 1 < argv.len() {
                Some(argv[i + 1])
            } else {
                None
            };
            (ArgList { flags: a.flags.push((name_of(argv[i]), value)), ..a }, i + 2)
        };
        lemma_sorted_extends(b, argv, next);
        let r = b.sorted(argv, next);
        assert(a.positional =~= r.positional.subrange(0, a.positional.len() as int)) by {
            assert(b.positional =~= r.positional.subrange(0, b.positional.len() as int));
            assert(a.positional =~= b.positional.subrange(0, a.positional.len() as int));
        }
        assert(a.flags =~= r.flags.subrange(0, a.flags.len() as int)) by {
            assert(b.flags =~= r.flags.subrange(0, b.flags.len() as int));
            assert(a.flags =~= b.flags.subrange(0, a.flags.len() as int));
        }
    }
}

/// An argument without two dashes in front, where no flag takes it, is the
/// next positional one; one of the four flags that stand alone, written with
/// two dashes, is the next flag and takes nothing; any other flag takes the
/// argument behind it, whatever that is. The rest is sorted in behind.
pub proof fn law_arguments_are_sorted_in_order(a: ArgList, argv: Seq<Seq<char>>, i: int)
    requires
        0 <= i < argv.len(),
    ensures
        ({
            let r = a.sorted(argv, i);
            let dashes = argv[i].len() >= 2 && argv[i].subrange(0, 2) == seq!['-', '-'];
            &&& !dashes ==> r.positional.len() > a.positional.len()
                && r.positional[a.positional.len() as int] == argv[i]
            &&& dashes ==> r.flags.len() > a.flags.len() && seq!['-', '-']
                + r.flags[a.flags.len() as int].0 == argv[i]
            &&& argv[i] == "--keep"@ || argv[i] == "--help"@ || argv[i] == "--allow-small"@
                || argv[i] == "--no-baselines"@ ==> dashes && r.flags[a.flags.len() as int].1
                is None
            &&& dashes && argv[i] != "--keep"@ && argv[i] != "--help"@ && argv[i]
                != "--allow-small"@ && argv[i] != "--no-baselines"@ ==> r.flags[a.flags.len() as int].1
                == if i + 1 < argv.len() {
                Some(argv[i + 1])
            } else {
                None
            }
        }),
{
    reveal_strlit("keep");
    reveal_strlit("help");
    reveal_strlit("allow-small");
    reveal_strlit("no-baselines");
    reveal_strlit("--keep");
    reveal_strlit("--help");
    reveal_strlit("--allow-small");
    reveal_strlit("--no-baselines");
    let x = argv[i];
    let n = name_of(x);
    let dashes = x.len() >= 2 && x.subrange(0, 2) == seq!['-', '-'];
    assert(dashes <==> is_flag(x)) by {
        if is_flag(x) {
            assert(x.subrange(0, 2) =~= seq!['-', '-']);
        }
        if dashes {
            assert(x[0] == x.subrange(0, 2)[0] && x[1] == x.subrange(0, 2)[1]);
        }
    }
    if is_flag(x) {
        assert(seq!['-', '-'] + n =~= x);
        assert("--keep"@ =~= seq!['-', '-'] + "keep"@);
        assert("--help"@ =~= seq!['-', '-'] + "help"@);
        assert("--allow-small"@ =~= seq!['-', '-'] + "allow-small"@);
        assert("--no-baselines"@ =~= seq!['-', '-'] + "no-baselines"@);
        assert(name_of("--keep"@) =~= "keep"@);
        assert(name_of("--help"@) =~= "help"@);
        assert(name_of("--allow-small"@) =~= "allow-small"@);
        assert(name_of("--no-baselines"@) =~= "no-baselines"@);
        let value = if !stands_alone(n) && i + 1 < argv.len() {
            Some(argv[i + 1])
        } else {
            None
        };
        let b = ArgList { flags: a.flags.push((n, value)), ..a };
        let next = if stands_alone(n) {
            i + 1
        } else {
            i + 2
        };
        lemma_sorted_extends(b, argv, next);
        let r = b.sorted(argv, next);
        assert(r.flags.subrange(0, b.flags.len() as int)[a.flags.len() as int]
            == b.flags[a.flags.len() as int]);
    } else {
        let b = ArgList { positional: a.positional.push(x), ..a };
        lemma_sorted_extends(b, argv, i + 1);
        let r = b.sorted(argv, i + 1);
        assert(r.positional.subrange(0, b.positional.len() as int)[a.positional.len() as int]
            == b.positional[a.positional.len() as int]);
    }
}

/// Are the two texts the same?
fn same(a: &String, b: &str) -> (r: bool)
    ensures
        r == (a@ == b@),
{
    let other = String::from_str(b);
    *a == other
}

/// Sort arguments out.
pub fn parse_args(argv: &[String]) -> (r: Args)
    ensures
        r@ == ArgList::none().sorted(texts(argv@), 0),
{
    let n: usize = argv.len();
    let positional: Vec<String> = Vec::new();
    let flags: Vec<(String, Option<String>)> = Vec::new();
    let mut r = Args { positional, flags };
    let ghost all = texts(argv@);
    let mut i: usize = 0;
    assert(r@ =~= ArgList::none());
    while i < n
        invariant
            n == argv@.len(),
            i <= n,
            all == texts(argv@),
            ArgList::none().sorted(all, 0) == r@.sorted(all, i as int),
        decreases n - i,
    {
        let ghost was = r@;
        let a: &str = argv[i].as_str();
        let len: usize = a.unicode_len();
        assert(all[i as int] == a@);
        if len >= 2 && a.get_char(0) == '-' && a.get_char(1) == '-' {
            let name = String::from_str(a.substring_char(2, len));
            let alone = same(&name, "no-baselines") || same(&name, "keep") || same(
                &name,
                "allow-small",
            ) || same(&name, "help");
            let ghost text = name@;
            if alone {
                r.flags.push((name, None));
                assert(r@ =~= (ArgList { flags: was.flags.push((text, None)), ..was }));
                i = i + 1;
            } else if i + 1 < n {
                let value = String::from_str(argv[i + 1].as_str());
                assert(all[i + 1] == value@);
                r.flags.push((name, Some(value)));
                assert(r@ =~= (ArgList {
                    flags: was.flags.push((text, Some(all[i + 1]))),
                    ..was
                }));
                i = i + 2;
            } else {
                r.flags.push((name, None));
                assert(r@ =~= (ArgList { flags: was.flags.push((text, None)), ..was }));
                assert(r@.sorted(all, i + 2) == r@);
                assert(r@.sorted(all, n as int) == r@);
                i = n;
            }
        } else {
            r.positional.push(String::from_str(a));
            assert(r@ =~= (ArgList { positional: was.positional.push(a@), ..was }));
            i = i + 1;
        }
    }
    r
}

impl Args {
    /// The value of a flag, where it was first given.
    pub fn flag(&self, name: &str) -> (v: Option<&str>)
        ensures
            !self@.gives(name@) ==> v is None,
            forall|i: int| #[trigger]
                self@.first(name@, i) ==> match v {
                    Some(t) => self@.flags[i].1 == Some(t@),
                    None => self@.flags[i].1 is None,
                },
    {
        let mut i: usize = 0;
        while i < self.flags.len()
            invariant
                i <= self.flags@.len(),
                forall|j: int| 0 <= j < i ==> (#[trigger] self@.flags[j]).0 != name@,
            decreases self.flags@.len() - i,
        {
            if same(&self.flags[i].0, name) {
                assert(self@.flags[i as int].0 == name@);
                let v = match &self.flags[i].1 {
                    Some(s) => Some(s.as_str()),
                    None => None,
                };
                assert forall|k: int| #[trigger] self@.first(name@, k) implies k == i by {}
                return v;
            }
            i = i + 1;
        }
        None
    }

    /// Was the flag given?
    pub fn has(&self, name: &str) -> (b: bool)
        ensures
            b == self@.gives(name@),
    {
        let mut i: usize = 0;
        while i < self.flags.len()
            invariant
                i <= self.flags@.len(),
                forall|j: int| 0 <= j < i ==> (#[trigger] self@.flags[j]).0 != name@,
            decreases self.flags@.len() - i,
        {
            if same(&self.flags[i].0, name) {
                assert(self@.flags[i as int].0 == name@);
                return true;
            }
            i = i + 1;
        }
        false
    }
}

// ---- sizes --------------------------------------------------------------

/// What a suffix multiplies by; the units are binary.
pub open spec fn unit_of(c: char) -> Option<u64> {
    if c == 'K' || c == 'k' {
        Some(1024)
    } else if c == 'M' || c == 'm' {
        Some(1048576)
    } else if c == 'G' || c == 'g' {
        Some(1073741824)
    } else if c == 'T' || c == 't' {
        Some(1099511627776)
    } else {
        None
    }
}

/// The suffixes, in the order of the powers they stand for.
pub open spec fn suffixes(upper: bool) -> Seq<char> {
    if upper {
        seq!['K', 'M', 'G', 'T']
    } else {
        seq!['k', 'm', 'g', 't']
    }
}

/// K, M, G and T multiply by 1024 to the power of one, two, three and four,
/// whether they are upper or lower case, and nothing else is a suffix.
pub proof fn law_suffixes_are_binary_powers(c: char)
    ensures
        forall|i: int, upper: bool|
            0 <= i < 4 && #[trigger] suffixes(upper)[i] == c ==> unit_of(c) is Some
                && unit_of(c)->0 == pow(1024, (i + 1) as nat),
        unit_of(c) is Some ==> suffixes(true).contains(c) || suffixes(false).contains(c),
        forall|i: int|
            0 <= i < 4 ==> unit_of(#[trigger] suffixes(true)[i]) == unit_of(suffixes(false)[i])
                && unit_of(suffixes(true)[i]) is Some,
{
    reveal(pow);
    reveal_with_fuel(pow, 6);
    assert(pow(1024, 1) == 1024);
    assert(pow(1024, 2) == 1048576);
    assert(pow(1024, 3) == 1073741824);
    assert(pow(1024, 4) == 1099511627776);
    assert(suffixes(true)[0] == 'K' && suffixes(true)[1] == 'M' && suffixes(true)[2] == 'G'
        && suffixes(true)[3] == 'T');
    assert(suffixes(false)[0] == 'k' && suffixes(false)[1] == 'm' && suffixes(false)[2] == 'g'
        && suffixes(false)[3] == 't');
}

/// A size taken apart: its number and what the suffix multiplies it by.
pub open spec fn size_parts(s: Seq<char>) -> (Seq<char>, u64) {
    if s.len() > 0 && unit_of(s.last()) is Some {
        (s.drop_last(), unit_of(s.last())->0)
    } else {
        (s, 1)
    }
}

/// A number with a suffix behind it comes apart into just that number and the
/// suffix's power of 1024; a text that ends in no suffix stays whole.
pub proof fn law_sizes_come_apart(number: Seq<char>, c: char)
    ensures
        forall|i: int, upper: bool|
            0 <= i < 4 && #[trigger] suffixes(upper)[i] == c ==> size_parts(number.push(c)).0
                == number && size_parts(number.push(c)).1 == pow(1024, (i + 1) as nat),
        !suffixes(true).contains(c) && !suffixes(false).contains(c) ==> size_parts(number.push(c))
            == (number.push(c), 1u64),
        size_parts(Seq::empty()) == (Seq::<char>::empty(), 1u64),
{
    law_suffixes_are_binary_powers(c);
    assert(number.push(c).drop_last() =~= number);
    assert(number.push(c).last() == c);
}

/// Take a size apart into its number and what the suffix multiplies it by.
/// Without a suffix the number is all of it.
pub fn split_size(s: &str) -> (r: (String, u64))
    ensures
        (r.0@, r.1) == size_parts(s@),
{
    let n: usize = s.unicode_len();
    if n == 0 {
        return (String::from_str(s), 1);
    }
    let c = s.get_char(n - 1);
    let unit: u64 = if c == 'K' || c == 'k' {
        1024
    } else if c == 'M' || c == 'm' {
        1048576
    } else if c == 'G' || c == 'g' {
        1073741824
    } else if c == 'T' || c == 't' {
        1099511627776
    } else {
        return (String::from_str(s), 1);
    };
    (String::from_str(s.substring_char(0, n - 1)), unit)
}

/// The budget of a new pool where none is given.
pub open spec fn standard_budget(size: u64, block: u64) -> u64 {
    if size / 16 >= block {
        size / 16
    } else {
        block
    }
}

/// It is the larger of a sixteenth of the size and one block, so a pool of
/// sixteen blocks or more gets at least sixteen bytes of arena per hot byte.
pub proof fn law_standard_budget(size: u64, block: u64)
    ensures
        standard_budget(size, block) >= block,
        16 * standard_budget(size, block) >= size - 15,
        standard_budget(size, block) == block || 16 * standard_budget(size, block) <= size,
        16 * block <= size ==> 16 * standard_budget(size, block) <= size,
{
}

/// The region of an experiment where none is given.
pub open spec fn standard_region(size: u64) -> int {
    size as int / 4 * 3
}

/// It is three quarters of the size, counted in whole quarters.
pub proof fn law_standard_region(size: u64)
    ensures
        standard_region(size) % 3 == 0,
        4 * standard_region(size) <= 3 * size < 4 * standard_region(size) + 12,
        size % 4 == 0 ==> 4 * standard_region(size) == 3 * size,
{
}

/// The budget of a new pool where none is given: a sixteenth of its size, and
/// at least one block.
pub fn default_budget(size: u64, block: u64) -> (b: u64)
    ensures
        b == standard_budget(size, block),
{
    if size / 16 >= block {
        size / 16
    } else {
        block
    }
}

/// The region of an experiment where none is given: three quarters of the
/// pool, counted in whole quarters.
pub fn default_region(size: u64) -> (r: u64)
    ensures
        r == standard_region(size),
{
    size / 4 * 3
}

impl Args {
    /// The value of a flag that needs one.
    pub fn value(&self, name: &str) -> (r: Result<Option<&str>, String>)
        ensures
            match r {
                Ok(None) => !self@.gives(name@),
                Ok(Some(t)) => exists|i: int| #[trigger]
                    self@.first(name@, i) && self@.flags[i].1 == Some(t@),
                Err(e) => {
                    &&& e@ == "--"@ + name@ + " needs a value"@
                    &&& exists|i: int| #[trigger]
                        self@.first(name@, i) && self@.flags[i].1 is None
                },
            },
    {
        let mut i: usize = 0;
        while i < self.flags.len()
            invariant
                i <= self.flags@.len(),
                forall|j: int| 0 <= j < i ==> (#[trigger] self@.flags[j]).0 != name@,
            decreases self.flags@.len() - i,
        {
            if same(&self.flags[i].0, name) {
                assert(self@.first(name@, i as int));
                match &self.flags[i].1 {
                    Some(s) => {
                        return Ok(Some(s.as_str()));
                    },
                    None => {
                        let mut t = String::from_str("--");
                        t.append(name);
                        t.append(" needs a value");
                        return Err(t);
                    },
                }
            }
            i = i + 1;
        }
        Ok(None)
    }
}

} // verus!
