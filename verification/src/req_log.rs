use vstd::prelude::*;

verus! {

/// One CSV row of the request log: the IP address, a comma, the infohash.
pub fn generate_csv(ip_addr: &str, infohash: &str) -> (csv: String)
    ensures
        csv@ == ip_addr@ + seq![','] + infohash@,
{
    let mut csv: String = ip_addr.to_owned();
    csv.append(",");
    csv.append(infohash);
    proof {
        reveal_strlit(",");
    }
    csv
}

} // verus!
