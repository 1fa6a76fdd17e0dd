use vstd::prelude::*;
use vstd::string::StringExecFns;
use vstd::utf8::*;

verus! {

/// Lexicographic order on byte strings, the order in which file names sort.
pub open spec fn bytes_lt(a: Seq<u8>, b: Seq<u8>) -> bool
    decreases a.len(),
{
    if a.len() == 0 {
        b.len() > 0
    } else if b.len() == 0 {
        false
    } else if a[0] != b[0] {
        a[0] < b[0]
    } else {
        bytes_lt(a.drop_first(), b.drop_first())
    }
}

/// The order of names: that of their UTF-8 bytes.
pub open spec fn name_lt(a: Seq<char>, b: Seq<char>) -> bool {
    bytes_lt(encode_utf8(a), encode_utf8(b))
}

/// The byte order is transitive.
pub proof fn lemma_bytes_lt_trans(a: Seq<u8>, b: Seq<u8>, c: Seq<u8>)
    requires
        bytes_lt(a, b),
        bytes_lt(b, c),
    ensures
        bytes_lt(a, c),
    decreases a.len(),
{
    if a.len() > 0 && b.len() > 0 && c.len() > 0 && a[0] == b[0] && b[0] == c[0] {
        lemma_bytes_lt_trans(a.drop_first(), b.drop_first(), c.drop_first());
    }
}

/// The byte order is irreflexive.
pub proof fn lemma_bytes_lt_irrefl(a: Seq<u8>)
    ensures
        !bytes_lt(a, a),
    decreases a.len(),
{
    if a.len() > 0 {
        lemma_bytes_lt_irrefl(a.drop_first());
    }
}

/// A string sorts before any proper extension of it.
pub proof fn lemma_bytes_lt_extend(a: Seq<u8>, x: Seq<u8>)
    requires
        x.len() > 0,
    ensures
        bytes_lt(a, a + x),
    decreases a.len(),
{
    if a.len() > 0 {
        assert((a + x).drop_first() =~= a.drop_first() + x);
        lemma_bytes_lt_extend(a.drop_first(), x);
    }
}

/// A name that sorts before another differs from it.
pub proof fn lemma_name_lt_ne(a: Seq<char>, b: Seq<char>)
    requires
        name_lt(a, b),
    ensures
        a != b,
{
    lemma_bytes_lt_irrefl(encode_utf8(a));
}


/// Of two different byte strings, one sorts before the other.
pub proof fn lemma_bytes_lt_total(a: Seq<u8>, b: Seq<u8>)
    requires
        a != b,
    ensures
        bytes_lt(a, b) || bytes_lt(b, a),
    decreases a.len(),
{
    if a.len() > 0 && b.len() > 0 && a[0] == b[0] {
        if a.drop_first() == b.drop_first() {
            assert(a =~= seq![a[0]] + a.drop_first());
            assert(b =~= seq![b[0]] + b.drop_first());
        }
        lemma_bytes_lt_total(a.drop_first(), b.drop_first());
    } else if a.len() == 0 && b.len() == 0 {
        assert(a =~= b);
    }
}

/// Of two different names, one sorts before the other.
pub proof fn lemma_name_lt_total(a: Seq<char>, b: Seq<char>)
    requires
        a != b,
    ensures
        name_lt(a, b) || name_lt(b, a),
{
    encode_utf8_decode_utf8(a);
    encode_utf8_decode_utf8(b);
    lemma_bytes_lt_total(encode_utf8(a), encode_utf8(b));
}

/// The encoding of a concatenation is the concatenation of the encodings.
pub proof fn lemma_encode_utf8_concat(a: Seq<char>, b: Seq<char>)
    ensures
        encode_utf8(a + b) == encode_utf8(a) + encode_utf8(b),
    decreases a.len(),
{
    if a.len() == 0 {
        assert(a + b =~= b);
        assert(encode_utf8(a) =~= Seq::<u8>::empty());
        assert(encode_utf8(a) + encode_utf8(b) =~= encode_utf8(b));
    } else {
        lemma_encode_utf8_concat(a.drop_first(), b);
        assert((a + b).drop_first() =~= a.drop_first() + b);
        assert((a + b)[0] == a[0]);
        assert(encode_utf8(a + b) =~= encode_utf8(a) + encode_utf8(b));
    }
}

fn lt_from(a: &[u8], b: &[u8], i: usize) -> (r: bool)
    requires
        i <= a@.len(),
        i <= b@.len(),
    ensures
        r == bytes_lt(a@.subrange(i as int, a@.len() as int), b@.subrange(i as int, b@.len() as int)),
    decreases a@.len() - i,
{
    let ghost sa = a@.subrange(i as int, a@.len() as int);
    let ghost sb = b@.subrange(i as int, b@.len() as int);
    if i == a.len() {
        return i < b.len();
    }
    if i == b.len() {
        return false;
    }
    if a[i] != b[i] {
        return a[i] < b[i];
    }
    assert(sa.drop_first() =~= a@.subrange(i + 1, a@.len() as int));
    assert(sb.drop_first() =~= b@.subrange(i + 1, b@.len() as int));
    lt_from(a, b, i + 1)
}

/// Whether name `a` sorts before name `b`.
pub fn name_less(a: &String, b: &String) -> (r: bool)
    ensures
        r == name_lt(a@, b@),
{
    let x = a.as_str().as_bytes();
    let y = b.as_str().as_bytes();
    assert(x@.subrange(0, x@.len() as int) =~= x@);
    assert(y@.subrange(0, y@.len() as int) =~= y@);
    lt_from(x, y, 0)
}

/// The decimal digits of `n`, most significant first.
pub open spec fn decimal(n: nat) -> Seq<char>
    decreases n,
{
    if n < 10 {
        seq![(('0' as u8) + n) as char]
    } else {
        decimal(n / 10).push((('0' as u8) + (n % 10)) as char)
    }
}

/// The decimal digits of `n`, with zeros in front up to `width` characters.
pub open spec fn padded(n: nat, width: nat) -> Seq<char> {
    let d = decimal(n);
    if d.len() >= width {
        d
    } else {
        Seq::new((width - d.len()) as nat, |i: int| '0') + d
    }
}

/// Relies on std's integer formatting with a zero-padded width: the decimal digits
/// of `n`, with zeros in front up to twenty characters.
#[verifier::external_body]
fn counter_text(n: u64) -> (r: String)
    ensures
        r@ == padded(n as nat, 20),
{
    format!("{:020}", n)
}

/// Relies on chrono's `From<SystemTime>` for `DateTime<Utc>` and its `format`: the
/// current UTC time as `YYYY-MM-DD-HH-MM-SS-ffffff`. A clock before 1970 is converted,
/// not refused. Nothing is known of the time itself.
#[verifier::external_body]
fn utc_stamp() -> (r: String) {
    chrono::DateTime::<chrono::Utc>::from(std::time::SystemTime::now()).format(
        "%Y-%m-%d-%H-%M-%S-%6f",
    ).to_string()
}

/// The name made of a time stamp, a dash, and a counter in twenty digits.
pub open spec fn stamp_name(stamp: Seq<char>, counter: nat) -> Seq<char> {
    stamp + "-"@ + padded(counter, 20)
}

/// The name that follows `last` when the stamped name does not sort after it: `last`,
/// a dash, and the counter in twenty digits.
pub open spec fn after_name(last: Seq<char>, counter: nat) -> Seq<char> {
    last + "-"@ + padded(counter, 20)
}

/// Makes a segment name from a time stamp and a counter: the stamp, a dash, and the
/// counter in twenty digits. When that does not sort after `last`, the name is `last`
/// followed by a dash and the counter, which always does.
pub fn stamped_name(stamp: &String, counter: u64, last: &Option<String>) -> (r: String)
    ensures
        last is None ==> r@ == stamp_name(stamp@, counter as nat),
        last matches Some(l) ==> r@ == if name_lt(l@, stamp_name(stamp@, counter as nat)) {
            stamp_name(stamp@, counter as nat)
        } else {
            after_name(l@, counter as nat)
        },
        last matches Some(l) ==> name_lt(l@, r@),
{
    let suffix = String::from_str("-").concat(counter_text(counter).as_str());
    let candidate = String::from_str(stamp.as_str()).concat(suffix.as_str());
    assert(candidate@ =~= stamp_name(stamp@, counter as nat));
    match last {
        None => candidate,
        Some(l) => {
            if name_less(l, &candidate) {
                candidate
            } else {
                let r = String::from_str(l.as_str()).concat(suffix.as_str());
                proof {
                    reveal_strlit("-");
                    assert(r@ =~= after_name(l@, counter as nat));
                    lemma_encode_utf8_concat(l@, suffix@);
                    assert(suffix@.len() > 0);
                    assert(encode_utf8(suffix@).len() > 0) by {
                        assert(encode_utf8(suffix@) == encode_scalar(suffix@[0] as u32)
                            + encode_utf8(suffix@.drop_first()));
                    }
                    lemma_bytes_lt_extend(encode_utf8(l@), encode_utf8(suffix@));
                }
                r
            }
        },
    }
}

/// Generates unique, increasing segment names within a process.
pub struct NameGen {
    counter: u64,
    last: Option<String>,
}

impl NameGen {
    /// The last name handed out, or the newest name already on disk.
    pub closed spec fn last_view(&self) -> Option<Seq<char>> {
        match self.last {
            Some(s) => Some(s@),
            None => None,
        }
    }

    /// A generator whose names all sort after `last`.
    pub fn new(last: Option<String>) -> (r: NameGen)
        ensures
            r.last_view() == match last {
                Some(s) => Some(s@),
                None => None::<Seq<char>>,
            },
    {
        NameGen { counter: 0, last }
    }

    /// A fresh name, after every name handed out before it.
    pub fn gen_name(&mut self) -> (r: String)
        ensures
            old(self).last_view() matches Some(l) ==> name_lt(l, r@),
            final(self).last_view() == Some(r@),
    {
        let stamp = utc_stamp();
        let r = stamped_name(&stamp, self.counter, &self.last);
        if self.counter < u64::MAX {
            self.counter = self.counter + 1;
        }
        self.last = Some(r.clone());
        r
    }
}

/// Names drawn one after another from a generator are pairwise distinct: each sorts
/// after every name before it.
pub proof fn law_names_distinct(names: Seq<Seq<char>>, i: int, j: int)
    requires
        forall|k: int| 0 <= k < names.len() - 1 ==> name_lt(#[trigger] names[k], names[k + 1]),
        0 <= i < j < names.len(),
    ensures
        name_lt(names[i], names[j]),
        names[i] != names[j],
    decreases j - i,
{
    if j == i + 1 {
        assert(name_lt(names[i], names[i + 1]));
    } else {
        law_names_distinct(names, i, j - 1);
        assert(name_lt(names[j - 1], names[j]));
        lemma_bytes_lt_trans(encode_utf8(names[i]), encode_utf8(names[j - 1]), encode_utf8(names[j]));
    }
    lemma_name_lt_ne(names[i], names[j]);
}

} // verus!
