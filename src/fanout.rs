use vstd::prelude::*;

verus! {

/// The replies that arrived, each with the name of the module that sent it,
/// in module order.
pub open spec fn arrived<T>(names: Seq<String>, replies: Seq<Option<T>>) -> Seq<(Seq<char>, T)>
    decreases replies.len(),
{
    if replies.len() == 0 || names.len() == 0 {
        Seq::empty()
    } else {
        let n = if names.len() < replies.len() { names.len() } else { replies.len() };
        let rest = arrived(names.take(n - 1), replies.take(n - 1));
        match replies[n - 1] {
            Some(v) => rest.push((names[n - 1]@, v)),
            None => rest,
        }
    }
}

/// Pairs each module name with its reply and keeps the replies that
/// arrived: a module that failed is left out, and never fails the rest.
/// Names without a reply, and replies without a name, are ignored.
pub fn merge_replies<T>(names: Vec<String>, replies: Vec<Option<T>>) -> (r: Vec<(String, T)>)
    ensures
        r@.map_values(|e: (String, T)| (e.0@, e.1)) == arrived(names@, replies@),
{
    let n: usize = if names.len() < replies.len() { names.len() } else { replies.len() };
    let ghost names0 = names@;
    let ghost replies0 = replies@;
    let mut names = names;
    let mut replies = replies;
    names.truncate(n);
    replies.truncate(n);
    proof {
        assert(names@ =~= names0.take(n as int));
        assert(replies@ =~= replies0.take(n as int));
        lemma_arrived_take(names0, replies0);
    }
    collect(names, replies)
}

proof fn lemma_arrived_take<T>(names: Seq<String>, replies: Seq<Option<T>>)
    ensures
        ({
            let n = if names.len() < replies.len() { names.len() } else { replies.len() };
            arrived(names.take(n as int), replies.take(n as int)) == arrived(names, replies)
        }),
{
    let n = if names.len() < replies.len() { names.len() } else { replies.len() };
    if n > 0 {
        assert(names.take(n as int).take(n - 1) =~= names.take(n - 1));
        assert(replies.take(n as int).take(n - 1) =~= replies.take(n - 1));
    }
}

/// The replies that arrived, for names and replies of equal number.
fn collect<T>(names: Vec<String>, replies: Vec<Option<T>>) -> (r: Vec<(String, T)>)
    requires
        names@.len() == replies@.len(),
    ensures
        r@.map_values(|e: (String, T)| (e.0@, e.1)) == arrived(names@, replies@),
    decreases replies@.len(),
{
    let mut names = names;
    let mut replies = replies;
    let ghost names0 = names@;
    let ghost replies0 = replies@;
    match (names.pop(), replies.pop()) {
        (Some(name), Some(reply)) => {
            let mut out = collect(names, replies);
            proof {
                assert(names0.take(names0.len() - 1) =~= names0.drop_last());
                assert(replies0.take(replies0.len() - 1) =~= replies0.drop_last());
            }
            match reply {
                Some(v) => {
                    let ghost before = out@;
                    out.push((name, v));
                    assert(out@.map_values(|e: (String, T)| (e.0@, e.1)) =~= before.map_values(
                        |e: (String, T)| (e.0@, e.1),
                    ).push((name@, v)));
                },
                None => {},
            }
            out
        },
        _ => {
            assert(names0.len() == 0);
            assert(Seq::<(String, T)>::empty().map_values(|e: (String, T)| (e.0@, e.1)) =~= Seq::<(Seq<char>, T)>::empty());
            Vec::new()
        },
    }
}

} // verus!
