//! Upstream session configuration and the URLs the venue expects.
//!
//! A `TimedStream` describes one WebSocket session: the symbols it
//! subscribes and the daily validity window the router assigns it.  The
//! URL builders are exact down to the character; the dial itself and the
//! frame loop live outside the library.

use vstd::prelude::*;

use crate::numeric;
use crate::text;

verus! {

/// One upstream session: the subscribed symbols and the `(start, end)`
/// validity window in seconds of day.  The window is metadata for the
/// router; nothing here enforces it.
pub struct TimedStream {
    pub currency_pairs: Vec<String>,
    pub life_span: (u32, u32),
}

/// One entry of the combined-stream list: a separating slash for every
/// pair after the first, the lower-case pair, and the depth suffix.
pub open spec fn stream_piece(pair: Seq<char>, first: bool) -> Seq<char> {
    (if first {
        Seq::<char>::empty()
    } else {
        "/"@
    }) + pair + "@depth@100ms"@
}

/// The combined-stream list from index `i` on.
pub open spec fn streams_part(pairs: Seq<Seq<char>>, i: int) -> Seq<char>
    decreases pairs.len() - i,
{
    if i < 0 || i >= pairs.len() {
        Seq::empty()
    } else {
        stream_piece(pairs[i], i == 0) + streams_part(pairs, i + 1)
    }
}

/// The full combined-stream subscription URL for the given pairs.
pub open spec fn ws_url_chars(pairs: Seq<Seq<char>>) -> Seq<char> {
    "wss://fstream.binance.com/stream?streams="@ + streams_part(pairs, 0)
}

/// The venue's REST depth endpoint for one symbol and snapshot depth.
pub open spec fn snapshot_url_chars(sym: Seq<char>, limit: u16) -> Seq<char> {
    "https://fapi.binance.com/fapi/v1/depth?symbol="@ + sym + "&limit="@ + numeric::dec_digits(
        limit as nat,
    )
}

impl TimedStream {
    /// Builds the combined-stream URL from already-lower-cased pairs,
    /// joined by `/`, each with the depth suffix.
    pub fn create_ws_url(currency_pairs: &Vec<&str>) -> (r: String)
        ensures
            r@ == ws_url_chars(currency_pairs@.map_values(|p: &str| p@)),
    {
        let ghost pairs = currency_pairs@.map_values(|p: &str| p@);
        let mut url = String::new();
        url.append("wss://fstream.binance.com/stream?streams=");
        let n = currency_pairs.len();
        let mut i: usize = 0;
        while i < n
            invariant
                n == currency_pairs@.len(),
                pairs == currency_pairs@.map_values(|p: &str| p@),
                0 <= i <= n,
                url@ + streams_part(pairs, i as int) == ws_url_chars(pairs),
            decreases n - i,
        {
            let ghost url0 = url@;
            let pair: &str = currency_pairs[i];
            if i > 0 {
                url.append("/");
            }
            url.append(pair);
            url.append("@depth@100ms");
            proof {
                assert(url@ =~= url0 + stream_piece(pairs[i as int], i == 0));
                assert(streams_part(pairs, i as int) == stream_piece(pairs[i as int], i == 0)
                    + streams_part(pairs, i + 1));
                assert((url0 + stream_piece(pairs[i as int], i == 0)) + streams_part(
                    pairs,
                    i + 1,
                ) =~= url0 + (stream_piece(pairs[i as int], i == 0) + streams_part(pairs, i + 1)));
            }
            i = i + 1;
        }
        proof {
            assert(streams_part(pairs, n as int) =~= Seq::<char>::empty());
            assert(url@ + Seq::<char>::empty() =~= url@);
        }
        url
    }

    /// The subscription URL of this session: its pairs lower-cased, in
    /// order.
    pub fn subscription_url(&self) -> (r: String)
        ensures
            r@ == ws_url_chars(
                self.currency_pairs@.map_values(
                    |p: String| p@.map_values(|c: char| text::lower_char(c)),
                ),
            ),
    {
        let n = self.currency_pairs.len();
        let mut lows: Vec<String> = Vec::new();
        let mut i: usize = 0;
        while i < n
            invariant
                n == self.currency_pairs@.len(),
                0 <= i <= n,
                lows@.len() == i,
                forall|j: int|
                    0 <= j < i ==> lows@[j]@ == self.currency_pairs@[j]@.map_values(
                        |c: char| text::lower_char(c),
                    ),
            decreases n - i,
        {
            lows.push(text::to_lower(self.currency_pairs[i].as_str()));
            i = i + 1;
        }
        let mut refs: Vec<&str> = Vec::new();
        let mut k: usize = 0;
        while k < n
            invariant
                n == lows@.len(),
                0 <= k <= n,
                refs@.len() == k,
                forall|j: int| 0 <= j < k ==> refs@[j]@ == lows@[j]@,
            decreases n - k,
        {
            refs.push(lows[k].as_str());
            k = k + 1;
        }
        let url = Self::create_ws_url(&refs);
        proof {
            assert(refs@.map_values(|p: &str| p@) =~= self.currency_pairs@.map_values(
                |p: String| p@.map_values(|c: char| text::lower_char(c)),
            ));
        }
        url
    }
}

/// The REST snapshot URL for a symbol, normalized upper-case, at the
/// given depth.
pub fn depth_snapshot_url(symbol: &str, limit: u16) -> (r: String)
    ensures
        r@ == snapshot_url_chars(symbol@.map_values(|c: char| text::upper_char(c)), limit),
{
    let sym = text::to_upper(symbol);
    let mut url = String::new();
    url.append("https://fapi.binance.com/fapi/v1/depth?symbol=");
    url.append(sym.as_str());
    url.append("&limit=");
    let digits = numeric::u64_to_dec(limit as u64);
    url.append(digits.as_str());
    proof {
        assert(url@ =~= snapshot_url_chars(
            symbol@.map_values(|c: char| text::upper_char(c)),
            limit,
        ));
    }
    url
}

} // verus!
