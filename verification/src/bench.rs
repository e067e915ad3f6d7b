//! What the benchmark client computes: its requests, their random keys and
//! values, and how its connections take turns.

use vstd::prelude::*;
use rand::Rng;
use crate::text::{decimal, push_decimal};

verus! {

/// A uniformly random number below `upper`, from the thread's generator.
/// Claims of `rand::Rng::gen_range` on `0..upper` with `rand::thread_rng()`:
/// the number lies in the range; which number it is, is left unsaid.
#[verifier::external_body]
fn random_below(upper: usize) -> (r: usize)
    requires
        upper > 0,
    ensures
        r < upper,
{
    rand::thread_rng().gen_range(0..upper)
}

/// A uniformly random percentage, as `rand::Rng::gen_range` on `0..100u8`
/// gives it: below 100; which one is left unsaid.
#[verifier::external_body]
fn random_percent() -> (r: u8)
    ensures
        r < 100,
{
    rand::thread_rng().gen_range(0..100u8)
}

/// The characters that `rand::distributions::Alphanumeric` draws from.
pub open spec fn is_alphanumeric(c: char) -> bool {
    ('A' <= c <= 'Z') || ('a' <= c <= 'z') || ('0' <= c <= '9')
}

/// `len` random characters drawn by `rand::distributions::Alphanumeric`
/// (through `Rng::sample_iter` on `rand::thread_rng()`): the claim is the
/// length and that each is an ASCII letter or digit; which ones, is left unsaid.
#[verifier::external_body]
fn random_alphanumeric(len: usize) -> (s: String)
    ensures
        s@.len() == len,
        forall|i: int| 0 <= i < len ==> is_alphanumeric(#[trigger] s@[i]),
{
    rand::thread_rng().sample_iter(&rand::distributions::Alphanumeric).take(len).map(char::from).collect()
}

/// The name of the key numbered `index`.
pub open spec fn key_name_spec(index: nat) -> Seq<char> {
    "key"@ + decimal(index)
}

/// The name of the key numbered `index`: `key` and the number.
pub fn key_name(index: usize) -> (s: String)
    ensures
        s@ == key_name_spec(index as nat),
{
    let mut s = String::new();
    s.append("key");
    push_decimal(&mut s, index);
    proof {
        assert(s@ =~= "key"@ + decimal(index as nat));
    }
    s
}

/// The request that reads `key`.
pub open spec fn get_request_spec(key: Seq<char>) -> Seq<char> {
    "GET "@ + key + "\r\n"@
}

/// The request that writes `value` under `key`.
pub open spec fn set_request_spec(key: Seq<char>, value: Seq<char>) -> Seq<char> {
    "SET "@ + key + " "@ + value + "\r\n"@
}

/// The request that reads `key`.
pub fn get_request(key: &str) -> (r: String)
    ensures
        r@ == get_request_spec(key@),
{
    let mut r = String::new();
    r.append("GET ");
    r.append(key);
    r.append("\r\n");
    proof {
        assert(r@ =~= get_request_spec(key@));
    }
    r
}

/// The request that writes `value` under `key`.
pub fn set_request(key: &str, value: &str) -> (r: String)
    ensures
        r@ == set_request_spec(key@, value@),
{
    let mut r = String::new();
    r.append("SET ");
    r.append(key);
    r.append(" ");
    r.append(value);
    r.append("\r\n");
    proof {
        assert(r@ =~= set_request_spec(key@, value@));
    }
    r
}

/// The request of the mixed workload for key number `key_index` and the
/// percentage `roll`: a read where `roll` is below `rw_ratio`, else a write
/// of `value`.
pub open spec fn workload_request_spec(key_index: nat, roll: nat, rw_ratio: nat, value: Seq<char>) -> Seq<char> {
    if roll < rw_ratio {
        get_request_spec(key_name_spec(key_index))
    } else {
        set_request_spec(key_name_spec(key_index), value)
    }
}

/// The request of the mixed workload for key number `key_index` and the
/// percentage `roll`.
pub fn workload_request(key_index: usize, roll: u8, rw_ratio: u8, value: &str) -> (r: String)
    ensures
        r@ == workload_request_spec(key_index as nat, roll as nat, rw_ratio as nat, value@),
{
    let key = key_name(key_index);
    if roll < rw_ratio {
        get_request(key.as_str())
    } else {
        set_request(key.as_str(), value)
    }
}

/// Whether `r` is one request of the mixed workload: on some key below
/// `key_range`, for some percentage below 100.
pub open spec fn is_workload_request(r: Seq<char>, key_range: nat, rw_ratio: nat, value: Seq<char>) -> bool {
    exists|k: nat, roll: nat|
        k < key_range && roll < 100 && r == #[trigger] workload_request_spec(k, roll, rw_ratio, value)
}

/// A batch of `count` requests of the mixed workload, each on a random key
/// below `key_range` and a read with probability `rw_ratio` percent.
pub fn workload_batch(count: usize, key_range: usize, rw_ratio: u8, value: &str) -> (batch: Vec<String>)
    requires
        key_range > 0,
    ensures
        batch@.len() == count,
        forall|i: int| 0 <= i < count ==> is_workload_request(
            (#[trigger] batch@[i])@,
            key_range as nat,
            rw_ratio as nat,
            value@,
        ),
{
    let mut batch: Vec<String> = Vec::new();
    let mut n: usize = 0;
    while n < count
        invariant
            key_range > 0,
            n <= count,
            batch@.len() == n,
            forall|i: int| 0 <= i < n ==> is_workload_request(
                (#[trigger] batch@[i])@,
                key_range as nat,
                rw_ratio as nat,
                value@,
            ),
        decreases count - n,
    {
        let key_index = random_below(key_range);
        let roll = random_percent();
        let req = workload_request(key_index, roll, rw_ratio, value);
        proof {
            assert(is_workload_request(req@, key_range as nat, rw_ratio as nat, value@)) by {
                assert(req@ == workload_request_spec(key_index as nat, roll as nat, rw_ratio as nat, value@));
            }
        }
        batch.push(req);
        n = n + 1;
    }
    batch
}

/// A string of `n` letters `a`, as `"a".repeat(n)` gives it.
pub fn value_template(n: usize) -> (s: String)
    ensures
        s@ == Seq::new(n as nat, |i: int| 'a'),
{
    let mut s = String::new();
    let mut i: usize = 0;
    while i < n
        invariant
            i <= n,
            s@ == Seq::new(i as nat, |j: int| 'a'),
        decreases n - i,
    {
        s.append("a");
        i = i + 1;
        proof {
            reveal_strlit("a");
            assert(s@ =~= Seq::new(i as nat, |j: int| 'a'));
        }
    }
    s
}

/// Whether `r` writes, under some key below `key_range`, a value of
/// `value_size` ASCII letters and digits.
pub open spec fn is_prepopulate_request(r: Seq<char>, key_range: nat, value_size: nat) -> bool {
    exists|k: nat, v: Seq<char>|
        k < key_range && v.len() == value_size
            && (forall|j: int| 0 <= j < v.len() ==> is_alphanumeric(#[trigger] v[j]))
            && r == #[trigger] set_request_spec(key_name_spec(k), v)
}

/// A batch of `count` writes that fill the store before a run: each on a
/// random key below `key_range`, with `value_size` random letters and digits.
pub fn prepopulate_batch(count: usize, key_range: usize, value_size: usize) -> (batch: Vec<String>)
    requires
        key_range > 0,
    ensures
        batch@.len() == count,
        forall|i: int| 0 <= i < count ==> is_prepopulate_request(
            (#[trigger] batch@[i])@,
            key_range as nat,
            value_size as nat,
        ),
{
    let mut batch: Vec<String> = Vec::new();
    let mut n: usize = 0;
    while n < count
        invariant
            key_range > 0,
            n <= count,
            batch@.len() == n,
            forall|i: int| 0 <= i < n ==> is_prepopulate_request(
                (#[trigger] batch@[i])@,
                key_range as nat,
                value_size as nat,
            ),
        decreases count - n,
    {
        let key_index = random_below(key_range);
        let key = key_name(key_index);
        let value = random_alphanumeric(value_size);
        let req = set_request(key.as_str(), value.as_str());
        proof {
            assert(is_prepopulate_request(req@, key_range as nat, value_size as nat)) by {
                assert(req@ == set_request_spec(key_name_spec(key_index as nat), value@));
            }
        }
        batch.push(req);
        n = n + 1;
    }
    batch
}

/// How many requests the next batch of a client carries: a full batch, or
/// what is left of its operations.
pub fn next_batch_size(batch_size: usize, ops: usize, ops_done: usize) -> (n: usize)
    requires
        ops_done <= ops,
    ensures
        n == if batch_size < ops - ops_done { batch_size } else { (ops - ops_done) as usize },
{
    let remaining_ops = ops - ops_done;
    if batch_size < remaining_ops {
        batch_size
    } else {
        remaining_ops
    }
}

/// The connection after `conn_index`, in turn.
pub fn next_connection(conn_index: usize, conn_count: usize) -> (i: usize)
    requires
        conn_index < conn_count,
    ensures
        i == (conn_index + 1) % (conn_count as int),
        i < conn_count,
{
    if conn_index + 1 == conn_count {
        proof {
            vstd::arithmetic::div_mod::lemma_mod_self_0(conn_count as int);
        }
        0
    } else {
        proof {
            vstd::arithmetic::div_mod::lemma_small_mod((conn_index + 1) as nat, conn_count as nat);
        }
        conn_index + 1
    }
}

/// The operations a client thread has done once a batch of `sent` requests
/// has gone out: the requests answered count, and a batch whose connection
/// failed (`None`) counts none. The count never passes `ops`.
pub fn after_batch(ops_done: usize, ops: usize, sent: usize, answered: Option<usize>) -> (r: usize)
    requires
        ops_done + sent <= ops,
        answered matches Some(a) ==> a <= sent,
    ensures
        r == ops_done + match answered {
            Some(a) => a,
            None => 0,
        },
        r <= ops,
{
    match answered {
        Some(did) => ops_done + did,
        None => ops_done,
    }
}

/// When the server answers every request, each batch raises a client's
/// count by its size, at least one and never past `ops`: so a client whose
/// batches hold requests stops having done exactly `ops` operations.
pub proof fn lemma_full_answers(ops_done: usize, ops: usize, batch_size: usize)
    requires
        ops_done < ops,
        batch_size > 0,
    ensures
        ({
            let n = if batch_size < ops - ops_done { batch_size as int } else { ops - ops_done };
            &&& 0 < n
            &&& ops_done + n <= ops
            &&& (ops_done + n == ops || n == batch_size)
        }),
{
}

} // verus!
