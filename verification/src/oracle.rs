//! The answers of the price oracle, as the market reads them.

use crate::error::Error;
use vstd::prelude::*;

verus! {

/// One record of the price oracle: a price and the time it was taken at.
#[derive(Copy, Clone, Debug, PartialEq, Eq, Structural)]
pub struct PriceData {
    pub price: i128,
    pub timestamp: u64,
}

/// The price that an answer of the oracle carries, or `NoPrice` where the
/// oracle had no record.
pub open spec fn price_in(sample: Option<PriceData>) -> Result<i128, Error> {
    match sample {
        Some(record) => Ok(record.price),
        None => Err(Error::NoPrice),
    }
}

/// Reads the price out of an answer of the oracle.
pub fn read_price(sample: Option<PriceData>) -> (price: Result<i128, Error>)
    ensures
        price == price_in(sample),
{
    match sample {
        Some(record) => Ok(record.price),
        None => Err(Error::NoPrice),
    }
}

/// Reads the prices out of a run of records, in the oracle's order.
pub fn read_prices(records: Option<Vec<PriceData>>) -> (prices: Result<Vec<i128>, Error>)
    ensures
        records is None ==> prices == Err::<Vec<i128>, Error>(Error::NoPrice),
        records matches Some(list) ==> (prices matches Ok(read) && read@ =~= Seq::new(
            list@.len(),
            |i: int| list@[i].price,
        )),
{
    match records {
        None => Err(Error::NoPrice),
        Some(list) => {
            let mut read: Vec<i128> = Vec::new();
            let mut i: usize = 0;
            while i < list.len()
                invariant
                    i <= list.len(),
                    read@ =~= Seq::new(i as nat, |k: int| list@[k].price),
                decreases list.len() - i,
            {
                read.push(list[i].price);
                i = i + 1;
            }
            Ok(read)
        },
    }
}

} // verus!
