//! Bookkeeping of the IPC output: the framing of each message and which
//! connected clients stay connected after a frame was sent.
//!
//! Every frame goes to every client as one line of JSON; a client whose write
//! fails is dropped, and the others keep their order.
use vstd::prelude::*;

verus! {

/// The version number that every packet carries.
pub const PACKET_VERSION: u32 = 1;

/// A serialized packet as it is written to the clients: one line.
pub open spec fn framed(message: Seq<char>) -> Seq<char> {
    message.push('\n')
}

/// Turns a serialized packet into the line written to every client.
pub fn frame_message(message: &str) -> (line: String)
    ensures
        line@ == framed(message@),
{
    let mut line = String::new();
    line.append(message);
    line.append("\n");
    proof {
        reveal_strlit("\n");
        assert(line@ =~= framed(message@));
    }
    line
}

/// The clients that remain after a send, in their order: those whose write
/// succeeded.
pub open spec fn kept<T>(clients: Seq<T>, delivered: Seq<bool>) -> Seq<T>
    decreases clients.len(),
{
    if clients.len() == 0 {
        Seq::empty()
    } else {
        let rest = kept(clients.drop_last(), delivered.take(clients.len() - 1));
        if delivered[clients.len() - 1] {
            rest.push(clients.last())
        } else {
            rest
        }
    }
}

/// The number of successful writes among `delivered`.
pub open spec fn count_true(delivered: Seq<bool>) -> nat
    decreases delivered.len(),
{
    if delivered.len() == 0 {
        0
    } else {
        count_true(delivered.drop_last()) + if delivered.last() {
            1nat
        } else {
            0nat
        }
    }
}

/// Counting successful writes goes one write at a time: none before the
/// first client, and each client adds one exactly when its write succeeded.
pub proof fn lemma_count_true_step(delivered: Seq<bool>)
    ensures
        count_true(delivered.take(0)) == 0,
        count_true(delivered.take(delivered.len() as int)) == count_true(delivered),
        count_true(delivered) <= delivered.len(),
        forall|i: int|
            0 <= i < delivered.len() ==> #[trigger] count_true(delivered.take(i + 1)) == count_true(
                delivered.take(i),
            ) + if delivered[i] {
                1nat
            } else {
                0nat
            },
    decreases delivered.len(),
{
    assert(delivered.take(delivered.len() as int) =~= delivered);
    assert(delivered.take(0) =~= Seq::<bool>::empty());
    if delivered.len() > 0 {
        lemma_count_true_step(delivered.drop_last());
    }
    assert forall|i: int| 0 <= i < delivered.len() implies #[trigger] count_true(
        delivered.take(i + 1),
    ) == count_true(delivered.take(i)) + if delivered[i] {
        1nat
    } else {
        0nat
    } by {
        assert(delivered.take(i + 1).drop_last() =~= delivered.take(i));
    }
}

/// Which clients remain, by position: exactly one per successful write, and
/// the client at position `i` whose write succeeded is found right after the
/// successful clients before it. So a client stays if and only if its own
/// write succeeded, and the survivors keep their order.
pub proof fn lemma_kept_by_index<T>(clients: Seq<T>, delivered: Seq<bool>)
    requires
        delivered.len() == clients.len(),
    ensures
        kept(clients, delivered).len() == count_true(delivered),
        forall|i: int|
            0 <= i < clients.len() && #[trigger] delivered[i] ==> {
                &&& count_true(delivered.take(i)) < count_true(delivered)
                &&& kept(clients, delivered)[count_true(delivered.take(i)) as int] == clients[i]
            },
    decreases clients.len(),
{
    if clients.len() > 0 {
        let n = clients.len() as int;
        let c1 = clients.drop_last();
        let d1 = delivered.take(n - 1);
        lemma_kept_by_index(c1, d1);
        assert(delivered.drop_last() =~= d1);
        assert forall|i: int| 0 <= i < clients.len() && #[trigger] delivered[i] implies {
            &&& count_true(delivered.take(i)) < count_true(delivered)
            &&& kept(clients, delivered)[count_true(delivered.take(i)) as int] == clients[i]
        } by {
            if i < n - 1 {
                assert(d1.take(i) =~= delivered.take(i));
                assert(d1[i] == delivered[i]);
                assert(c1[i] == clients[i]);
            } else {
                assert(delivered.take(i) =~= d1);
            }
        }
    }
}

/// While every write succeeds, no client is dropped and their order is kept.
pub proof fn lemma_all_delivered_keeps_all<T>(clients: Seq<T>, delivered: Seq<bool>)
    requires
        delivered.len() == clients.len(),
        forall|i: int| 0 <= i < delivered.len() ==> delivered[i],
    ensures
        kept(clients, delivered) == clients,
    decreases clients.len(),
{
    if clients.len() > 0 {
        lemma_all_delivered_keeps_all(clients.drop_last(), delivered.take(clients.len() - 1));
        assert(clients.drop_last().push(clients.last()) =~= clients);
    }
}

/// When every write fails, no client remains.
pub proof fn lemma_none_delivered_keeps_none<T>(clients: Seq<T>, delivered: Seq<bool>)
    requires
        delivered.len() == clients.len(),
        forall|i: int| 0 <= i < delivered.len() ==> !delivered[i],
    ensures
        kept(clients, delivered).len() == 0,
    decreases clients.len(),
{
    if clients.len() > 0 {
        lemma_none_delivered_keeps_none(clients.drop_last(), delivered.take(clients.len() - 1));
    }
}

/// A send never adds clients: what remains is at most what was there, and
/// every remaining client was there before.
pub proof fn lemma_kept_within<T>(clients: Seq<T>, delivered: Seq<bool>)
    requires
        delivered.len() == clients.len(),
    ensures
        kept(clients, delivered).len() <= clients.len(),
        forall|k: int|
            0 <= k < kept(clients, delivered).len() ==> clients.contains(
                #[trigger] kept(clients, delivered)[k],
            ),
    decreases clients.len(),
{
    if clients.len() > 0 {
        let init = clients.drop_last();
        let d = delivered.take(clients.len() - 1);
        lemma_kept_within(init, d);
        let rest = kept(init, d);
        assert forall|k: int| 0 <= k < kept(clients, delivered).len() implies clients.contains(
            #[trigger] kept(clients, delivered)[k],
        ) by {
            if k < rest.len() {
                let x = rest[k];
                assert(init.contains(x));
                let j = choose|j: int| 0 <= j < init.len() && init[j] == x;
                assert(clients[j] == x);
            } else {
                assert(clients[clients.len() - 1] == clients.last());
            }
        }
    }
}

/// Drops every client whose write failed (`delivered[i]` is false), keeping
/// the others in order.
pub fn retain_delivered<T>(clients: &mut Vec<T>, delivered: &Vec<bool>)
    requires
        delivered@.len() == old(clients)@.len(),
    ensures
        final(clients)@ == kept(old(clients)@, delivered@),
        final(clients)@.len() == count_true(delivered@),
        forall|i: int|
            0 <= i < old(clients)@.len() && #[trigger] delivered@[i]
                ==> final(clients)@[count_true(delivered@.take(i)) as int] == old(clients)@[i],
{
    let ghost all = clients@;
    let total: usize = clients.len();
    let ghost n = all.len();
    let mut pending: Vec<T> = Vec::new();
    std::mem::swap(clients, &mut pending);
    // Reverse the clients so that popping yields them front to back.
    let mut stack: Vec<T> = Vec::new();
    while pending.len() > 0
        invariant
            n == all.len(),
            pending@.len() + stack@.len() == n,
            forall|j: int| 0 <= j < pending@.len() ==> pending@[j] == all[j],
            forall|j: int| 0 <= j < stack@.len() ==> stack@[j] == all[n - 1 - j],
        decreases pending@.len(),
    {
        let client = pending.pop().unwrap();
        stack.push(client);
    }
    let mut i: usize = 0;
    proof {
        assert(clients@ =~= kept(all.take(0), delivered@.take(0)));
    }
    while stack.len() > 0
        invariant
            n == all.len(),
            n == total,
            delivered@.len() == n,
            i + stack@.len() == n,
            forall|j: int| 0 <= j < stack@.len() ==> stack@[j] == all[n - 1 - j],
            clients@ == kept(all.take(i as int), delivered@.take(i as int)),
        decreases stack@.len(),
    {
        let client = stack.pop().unwrap();
        let keep = delivered[i];
        proof {
            let t = all.take(i + 1);
            assert(t.drop_last() =~= all.take(i as int));
            assert(delivered@.take(i + 1).take(i as int) =~= delivered@.take(i as int));
            assert(t.last() == client);
        }
        if keep {
            clients.push(client);
        }
        i = i + 1;
    }
    proof {
        assert(all.take(n as int) =~= all);
        assert(delivered@.take(n as int) =~= delivered@);
        lemma_kept_by_index(all, delivered@);
    }
}

} // verus!
