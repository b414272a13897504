//! One player's seat at the blackjack table: bets, the deal, the player's
//! turn, the dealer's turn and the payout.

use crate::engine::cards::{
    copy_cards, is_standard_card, lemma_arrangement_of_standard_deck, lemma_standard_deck_complete,
    standard_deck, Card, Deck, Rank,
};
use crate::engine::game::{
    ace_count, card_points, hand_score, lemma_cards_from_one_deck, lemma_score_is_best_total,
    raw_total, Hand,
};
use crate::identity::{is_lower_hex, new_player_id};
use crate::network::protocol::{shares_hand, GameMessage};
use crate::wallet::{lemma_balance_fits, Wallet};
use vstd::multiset::Multiset;
use vstd::prelude::*;

verus! {

/// The chips a new player starts with.
pub const STARTING_FUNDS: u32 = 5000;

/// The chips granted to a player whose wallet is empty.
pub const REFILL_AMOUNT: u32 = 1000;

/// The dealer draws while the dealer's score is below this.
pub const DEALER_STANDS_AT: u8 = 17;

/// The highest score that is not bust.
pub const BLACKJACK: u8 = 21;

/// What the table tells the player.
#[derive(Debug, Copy, Clone, PartialEq, Eq, Structural)]
pub enum Status {
    /// Waiting for chips to be placed.
    PlaceBets,
    /// Connecting to the other players.
    Connecting,
    /// The player's turn.
    YourTurn,
    /// The round paid out; `net` is the gain beyond the chips staked.
    Won { net: u32 },
    /// The player went over 21 and the bank won.
    Bust,
    /// The bank won.
    DealerWins,
    /// The empty wallet was refilled.
    Refilled,
    /// The bet was taken back.
    BetCancelled,
}

/// A player's seat: the deck, the player's hands, the dealer's hand, the
/// wallet, the chips staked for the round and where the round stands.
pub struct Table {
    my_id: String,
    deck: Deck,
    player_hands: Vec<Hand>,
    dealer_hand: Hand,
    wallet: Wallet,
    current_bet: u32,
    status: Status,
    in_game: bool,
}

/// The state of a seat, as contracts speak of it.
pub struct TableView {
    pub my_id: Seq<char>,
    pub deck: Seq<Card>,
    pub player_hands: Seq<Hand>,
    pub dealer_cards: Seq<Card>,
    pub dealer_bet: nat,
    pub dealer_active: bool,
    pub balance: nat,
    pub current_bet: nat,
    pub status: Status,
    pub in_game: bool,
}

impl View for Table {
    type V = TableView;

    closed spec fn view(&self) -> TableView {
        TableView {
            my_id: self.my_id@,
            deck: self.deck.cards@,
            player_hands: self.player_hands@,
            dealer_cards: self.dealer_hand.cards@,
            dealer_bet: self.dealer_hand.bet as nat,
            dealer_active: self.dealer_hand.active,
            balance: self.wallet@,
            current_bet: self.current_bet as nat,
            status: self.status,
            in_game: self.in_game,
        }
    }
}

/// The deck, the player's hand and the dealer's hand together hold exactly
/// one fresh deck: no card is lost and none is duplicated.
pub open spec fn cards_conserved(v: TableView) -> bool {
    v.deck.to_multiset().add(v.player_hands[0].cards@.to_multiset()).add(
        v.dealer_cards.to_multiset(),
    ) == standard_deck().to_multiset()
}

/// What a hand of `player_score` is paid, staking `bet`, against a dealer
/// scoring `dealer_score`: a bust hand loses; a hand that beats the dealer,
/// or faces a bust dealer, gets twice its stake; a tie gets its stake back;
/// any other hand loses.
pub open spec fn payout(player_score: int, dealer_score: int, bet: int) -> int {
    if player_score > 21 {
        0
    } else if dealer_score > 21 || player_score > dealer_score {
        2 * bet
    } else if player_score == dealer_score {
        bet
    } else {
        0
    }
}

/// What all the hands are paid together.
pub open spec fn round_gain(hands: Seq<Hand>, dealer_score: int) -> int
    decreases hands.len(),
{
    if hands.len() == 0 {
        0
    } else {
        round_gain(hands.drop_last(), dealer_score) + payout(
            hand_score(hands.last().cards@),
            dealer_score,
            hands.last().bet as int,
        )
    }
}

/// The chips staked on all the hands.
pub open spec fn total_bets(hands: Seq<Hand>) -> int
    decreases hands.len(),
{
    if hands.len() == 0 {
        0
    } else {
        total_bets(hands.drop_last()) + hands.last().bet
    }
}

/// Whether some hand went over 21.
pub open spec fn some_hand_bust(hands: Seq<Hand>) -> bool
    decreases hands.len(),
{
    if hands.len() == 0 {
        false
    } else {
        some_hand_bust(hands.drop_last()) || hand_score(hands.last().cards@) > 21
    }
}

/// What the table says once the round is paid out.
pub open spec fn round_status(hands: Seq<Hand>, dealer_cards: Seq<Card>) -> Status {
    let gain = round_gain(hands, hand_score(dealer_cards));
    if gain > 0 {
        Status::Won { net: (gain - total_bets(hands)) as u32 }
    } else if some_hand_bust(hands) {
        Status::Bust
    } else {
        Status::DealerWins
    }
}

/// The seat `after` is the seat `before` with a round dealt from `order`
/// (top card last): the player holds the top two cards on a hand carrying the
/// stake, the dealer the third, the rest stays in the deck, and it is the
/// player's turn; identifier, wallet and stake are untouched.
pub open spec fn dealt_from(before: TableView, after: TableView, order: Seq<Card>) -> bool {
    &&& order.len() == 52
    &&& after.my_id == before.my_id
    &&& after.balance == before.balance
    &&& after.current_bet == before.current_bet
    &&& after.status == Status::YourTurn
    &&& after.in_game
    &&& after.player_hands.len() == 1
    &&& after.player_hands[0].bet == before.current_bet
    &&& after.player_hands[0].active
    &&& after.player_hands[0].cards@ == seq![order[51], order[50]]
    &&& after.dealer_cards == seq![order[49]]
    &&& after.dealer_bet == 0
    &&& after.dealer_active
    &&& after.deck == order.subrange(0, 49)
}

/// The seat once the round in `v` is paid out: the winnings go to the
/// wallet, the stake is cleared and the round is over; the cards stay on the
/// table.
pub open spec fn settled(v: TableView) -> TableView {
    TableView {
        balance: v.balance + round_gain(v.player_hands, hand_score(v.dealer_cards)) as nat,
        current_bet: 0,
        status: round_status(v.player_hands, v.dealer_cards),
        in_game: false,
        ..v
    }
}

/// The dealer's turn: while the dealer's score is below 17 and the deck is
/// not empty, the dealer takes the top card. Gives the dealer's cards and
/// the deck afterwards.
pub open spec fn dealer_plays(dealer: Seq<Card>, deck: Seq<Card>) -> (Seq<Card>, Seq<Card>)
    decreases deck.len(),
{
    if hand_score(dealer) < DEALER_STANDS_AT && deck.len() > 0 {
        dealer_plays(dealer.push(deck.last()), deck.drop_last())
    } else {
        (dealer, deck)
    }
}

/// Moving the top card of a deck onto a hand keeps the cards the two hold
/// together.
proof fn lemma_move_top_card(deck: Seq<Card>, hand: Seq<Card>)
    requires
        deck.len() > 0,
    ensures
        deck.drop_last().to_multiset().add(hand.push(deck.last()).to_multiset())
            == deck.to_multiset().add(hand.to_multiset()),
{
    broadcast use vstd::seq_lib::group_to_multiset_ensures;
    broadcast use vstd::multiset::group_multiset_axioms;

    assert(deck.drop_last().push(deck.last()) =~= deck);
    assert(deck.drop_last().to_multiset().add(hand.push(deck.last()).to_multiset())
        =~= deck.to_multiset().add(hand.to_multiset()));
}

/// Two standard cards never score above 21: only two aces exceed it with
/// aces as eleven, and one of them then counts one.
proof fn lemma_two_card_hand(a: Card, b: Card)
    requires
        is_standard_card(a),
        is_standard_card(b),
    ensures
        raw_total(seq![a, b]) <= 22,
        hand_score(seq![a, b]) <= 21,
{
    let s = seq![a, b];
    let s1 = seq![a];
    let e = Seq::<Card>::empty();
    assert(s.drop_last() =~= s1);
    assert(s1.drop_last() =~= e);
    assert(s.last() == b);
    assert(s1.last() == a);
    assert(raw_total(e) == 0);
    assert(ace_count(e) == 0);
    assert(raw_total(s1) == card_points(a));
    assert(raw_total(s) == card_points(a) + card_points(b));
    assert(ace_count(s1) == (if a.rank == Rank::Ace { 1int } else { 0int }));
}

/// The empty sequence holds no card.
proof fn lemma_empty_multiset(s: Seq<Card>)
    requires
        s.len() == 0,
    ensures
        s.to_multiset() == Multiset::<Card>::empty(),
{
    broadcast use vstd::seq_lib::group_to_multiset_ensures;
    broadcast use vstd::multiset::group_multiset_axioms;

    assert(s.to_multiset().len() == 0);
    assert(s.to_multiset() =~= Multiset::empty());
}

/// In a seat whose cards are conserved, every card is a standard one worth
/// at most eleven, and each hand holds at most four aces.
proof fn lemma_seat_cards(v: TableView)
    requires
        v.player_hands.len() == 1,
        cards_conserved(v),
    ensures
        forall|i: int|
            0 <= i < v.deck.len() ==> is_standard_card(#[trigger] v.deck[i]) && card_points(
                v.deck[i],
            ) <= 11,
        ace_count(v.player_hands[0].cards@) <= 4,
        ace_count(v.dealer_cards) <= 4,
{
    let d = v.deck.to_multiset();
    let p = v.player_hands[0].cards@.to_multiset();
    let q = v.dealer_cards.to_multiset();
    assert(d.add(p.add(q)) =~= standard_deck().to_multiset());
    assert(p.add(d.add(q)) =~= standard_deck().to_multiset());
    assert(q.add(d.add(p)) =~= standard_deck().to_multiset());
    lemma_cards_from_one_deck(v.deck, p.add(q));
    lemma_cards_from_one_deck(v.player_hands[0].cards@, d.add(q));
    lemma_cards_from_one_deck(v.dealer_cards, d.add(p));
}

/// A score of at most `bound` keeps the total with aces as eleven within
/// `bound` plus ten per ace.
proof fn lemma_raw_within_score(cards: Seq<Card>, bound: int)
    requires
        hand_score(cards) <= bound,
    ensures
        raw_total(cards) <= bound + 10 * ace_count(cards),
{
    lemma_score_is_best_total(cards);
}

/// The dealer's turn ends with the dealer on 17 or more, or with the deck
/// empty; a dealer already on 17 or more takes nothing; the dealer only ever
/// takes cards from the top of the deck, so no card is lost or duplicated.
pub proof fn lemma_dealer_rule(dealer: Seq<Card>, deck: Seq<Card>)
    ensures
        hand_score(dealer_plays(dealer, deck).0) >= 17 || dealer_plays(dealer, deck).1.len() == 0,
        hand_score(dealer) >= 17 ==> dealer_plays(dealer, deck) == (dealer, deck),
        dealer_plays(dealer, deck).0.len() + dealer_plays(dealer, deck).1.len() == dealer.len()
            + deck.len(),
        dealer_plays(dealer, deck).1.len() <= deck.len(),
        dealer_plays(dealer, deck).0.subrange(0, dealer.len() as int) == dealer,
        dealer_plays(dealer, deck).1 == deck.subrange(0, dealer_plays(dealer, deck).1.len() as int),
        dealer_plays(dealer, deck).0.to_multiset().add(dealer_plays(dealer, deck).1.to_multiset())
            == dealer.to_multiset().add(deck.to_multiset()),
    decreases deck.len(),
{
    if hand_score(dealer) < 17 && deck.len() > 0 {
        let d2 = dealer.push(deck.last());
        let k2 = deck.drop_last();
        lemma_dealer_rule(d2, k2);
        lemma_move_top_card(deck, dealer);
        let (d, k) = dealer_plays(d2, k2);
        assert(dealer_plays(dealer, deck) == (d, k));
        assert forall|x: Card|
            #![auto]
            d2.to_multiset().add(k2.to_multiset()).count(x) == dealer.to_multiset().add(
                deck.to_multiset(),
            ).count(x) by {
            broadcast use vstd::multiset::group_multiset_axioms;

            assert(k2.to_multiset().add(d2.to_multiset()).count(x) == deck.to_multiset().add(
                dealer.to_multiset(),
            ).count(x));
        }
        assert(d2.to_multiset().add(k2.to_multiset()) =~= dealer.to_multiset().add(
            deck.to_multiset(),
        ));
        assert(d.subrange(0, dealer.len() as int) =~= d.subrange(0, d2.len() as int).subrange(
            0,
            dealer.len() as int,
        ));
        assert(d2.subrange(0, dealer.len() as int) =~= dealer);
        assert(k =~= deck.subrange(0, k.len() as int));
        assert(d.to_multiset().add(k.to_multiset()) =~= dealer.to_multiset().add(
            deck.to_multiset(),
        ));
    } else {
        assert(dealer.subrange(0, dealer.len() as int) =~= dealer);
        assert(deck.subrange(0, deck.len() as int) =~= deck);
    }
}

/// How a hand is paid: a bust hand gets nothing, even against a bust dealer;
/// otherwise beating the dealer (or facing a bust dealer) pays twice the
/// stake, a tie returns it, and losing pays nothing. The payout never
/// exceeds twice the stake.
pub proof fn lemma_payout_rules(player_score: int, dealer_score: int, bet: int)
    requires
        bet >= 0,
    ensures
        player_score > 21 ==> payout(player_score, dealer_score, bet) == 0,
        player_score <= 21 && dealer_score > 21 ==> payout(player_score, dealer_score, bet) == 2
            * bet,
        player_score <= 21 && dealer_score <= 21 && player_score > dealer_score ==> payout(
            player_score,
            dealer_score,
            bet,
        ) == 2 * bet,
        player_score <= 21 && player_score == dealer_score ==> payout(
            player_score,
            dealer_score,
            bet,
        ) == bet,
        player_score <= 21 && dealer_score <= 21 && player_score < dealer_score ==> payout(
            player_score,
            dealer_score,
            bet,
        ) == 0,
        0 <= payout(player_score, dealer_score, bet) <= 2 * bet,
{
}

impl Table {
    /// The cards are in order: one player hand, one fresh deck split between
    /// the deck and the two hands, and hands small enough to be scored.
    pub closed spec fn cards_ok(&self) -> bool {
        &&& self.player_hands@.len() == 1
        &&& cards_conserved(self@)
        &&& raw_total(self.player_hands@[0].cards@) <= 255
        &&& raw_total(self.dealer_hand.cards@) <= 255
    }

    /// The seat is consistent: the cards are in order, and during a round
    /// the player is not bust, the dealer shows one card and the player's
    /// hand carries the stake.
    pub closed spec fn wf(&self) -> bool {
        &&& self.cards_ok()
        &&& self.in_game ==> {
            &&& hand_score(self.player_hands@[0].cards@) <= 21
            &&& self.dealer_hand.cards@.len() <= 1
            &&& self.player_hands@[0].bet == self.current_bet
        }
    }

    /// A new seat: a fresh player identifier, an unshuffled deck, an empty
    /// hand for the player and for the dealer, the starting funds, no stake,
    /// and the table asking for bets.
    pub fn new() -> (t: Table)
        ensures
            t.wf(),
            t@.my_id.len() == 6,
            forall|i: int| 0 <= i < 6 ==> is_lower_hex(#[trigger] t@.my_id[i]),
            t@.deck == standard_deck(),
            t@.player_hands.len() == 1,
            t@.player_hands[0].cards@.len() == 0,
            t@.player_hands[0].bet == 0,
            t@.player_hands[0].active,
            t@.dealer_cards.len() == 0,
            t@.dealer_bet == 0,
            t@.dealer_active,
            t@.balance == STARTING_FUNDS,
            t@.current_bet == 0,
            t@.status == Status::PlaceBets,
            !t@.in_game,
    {
        let t = Table {
            my_id: new_player_id(),
            deck: Deck::new(),
            player_hands: vec![Hand::new(0)],
            dealer_hand: Hand::new(0),
            wallet: Wallet::new(STARTING_FUNDS),
            current_bet: 0,
            status: Status::PlaceBets,
            in_game: false,
        };
        proof {
            broadcast use vstd::seq_lib::group_to_multiset_ensures;
            broadcast use vstd::multiset::group_multiset_axioms;

            let e = t.player_hands@[0].cards@;
            assert(e.to_multiset().len() == 0);
            assert(e.to_multiset() =~= Multiset::empty());
            assert(t.dealer_hand.cards@.to_multiset().len() == 0);
            assert(t.dealer_hand.cards@.to_multiset() =~= Multiset::empty());
            assert(t@.deck.to_multiset().add(e.to_multiset()).add(
                t.dealer_hand.cards@.to_multiset(),
            ) =~= standard_deck().to_multiset());
        }
        t
    }

    /// Stakes `amount` more on the coming round when the wallet covers it;
    /// otherwise nothing changes. Either way the chips held plus the chips
    /// staked stay the same.
    pub fn place_bet(&mut self, amount: u32)
        requires
            old(self).wf(),
            !old(self)@.in_game,
            amount <= old(self)@.balance ==> old(self)@.current_bet + amount <= u32::MAX,
        ensures
            final(self).wf(),
            amount <= old(self)@.balance ==> final(self)@ == (TableView {
                balance: (old(self)@.balance - amount) as nat,
                current_bet: (old(self)@.current_bet + amount) as nat,
                ..old(self)@
            }),
            amount > old(self)@.balance ==> final(self)@ == old(self)@,
            final(self)@.balance + final(self)@.current_bet == old(self)@.balance + old(
                self,
            )@.current_bet,
    {
        if self.wallet.remove_funds(amount).is_ok() {
            self.current_bet += amount;
        }
    }

    /// Stakes everything the wallet holds.
    pub fn all_in(&mut self)
        requires
            old(self).wf(),
            !old(self)@.in_game,
            old(self)@.current_bet + old(self)@.balance <= u32::MAX,
        ensures
            final(self).wf(),
            final(self)@ == (TableView {
                balance: 0,
                current_bet: old(self)@.current_bet + old(self)@.balance,
                ..old(self)@
            }),
    {
        let b = self.wallet.balance();
        let _ = self.wallet.remove_funds(b);
        self.current_bet += b;
    }

    /// Takes the stake back into the wallet.
    pub fn cancel_bet(&mut self)
        requires
            old(self).wf(),
            !old(self)@.in_game,
            old(self)@.balance + old(self)@.current_bet <= u32::MAX,
        ensures
            final(self).wf(),
            final(self)@ == (TableView {
                balance: old(self)@.balance + old(self)@.current_bet,
                current_bet: 0,
                status: Status::BetCancelled,
                ..old(self)@
            }),
    {
        self.wallet.add_funds(self.current_bet);
        self.current_bet = 0;
        self.status = Status::BetCancelled;
    }

    /// Refills an empty wallet with `REFILL_AMOUNT` chips; a wallet that
    /// holds anything is left alone.
    pub fn refill(&mut self)
        requires
            old(self).wf(),
        ensures
            final(self).wf(),
            old(self)@.balance == 0 ==> final(self)@ == (TableView {
                balance: REFILL_AMOUNT as nat,
                status: Status::Refilled,
                ..old(self)@
            }),
            old(self)@.balance != 0 ==> final(self)@ == old(self)@,
    {
        if self.wallet.balance() == 0 {
            self.wallet.add_funds(REFILL_AMOUNT);
            self.status = Status::Refilled;
        }
    }

    /// Notes that the seat is connecting to the other players.
    pub fn begin_connecting(&mut self)
        requires
            old(self).wf(),
        ensures
            final(self).wf(),
            final(self)@ == (TableView { status: Status::Connecting, ..old(self)@ }),
    {
        self.status = Status::Connecting;
    }

    /// Deals a round from `deck`, whose top is its last card: the player gets
    /// the top two cards on a hand carrying the stake, the dealer the next
    /// one, and it is the player's turn. `deck` must hold exactly one fresh
    /// deck, in any order. Gives the message that shares the player's hand.
    pub fn deal(&mut self, deck: Deck) -> (m: GameMessage)
        requires
            old(self).wf(),
            deck.cards@.to_multiset() == standard_deck().to_multiset(),
        ensures
            final(self).wf(),
            dealt_from(old(self)@, final(self)@, deck.cards@),
            shares_hand(m, final(self)@.my_id, final(self)@.player_hands[0].cards@),
    {
        let ghost order = deck.cards@;
        proof {
            lemma_arrangement_of_standard_deck(order);
        }
        let mut deck = deck;
        let mut hand = Hand::new(self.current_bet);
        let mut dealer = Hand::new(0);
        let ghost h0 = hand.cards@;
        let ghost dl0 = dealer.cards@;
        if let Some(c) = deck.draw() {
            hand.add_card(c);
        }
        let ghost d1 = deck.cards@;
        let ghost h1 = hand.cards@;
        if let Some(c) = deck.draw() {
            hand.add_card(c);
        }
        let ghost d2 = deck.cards@;
        if let Some(c) = deck.draw() {
            dealer.add_card(c);
        }
        proof {
            broadcast use vstd::multiset::group_multiset_axioms;

            lemma_move_top_card(order, h0);
            lemma_move_top_card(d1, h1);
            lemma_move_top_card(d2, dl0);
            lemma_empty_multiset(h0);
            lemma_empty_multiset(dl0);
            assert(deck.cards@ =~= order.subrange(0, 49));
            assert(hand.cards@ =~= seq![order[51], order[50]]);
            assert(dealer.cards@ =~= seq![order[49]]);
            assert(order.contains(order[51]));
            assert(order.contains(order[49]));
            lemma_two_card_hand(order[51], order[50]);
            assert(dealer.cards@.drop_last() =~= Seq::<Card>::empty());
            assert(raw_total(Seq::<Card>::empty()) == 0);
            assert(is_standard_card(order[49]));
            assert(raw_total(dealer.cards@) == card_points(order[49]));
            assert(d2.to_multiset().add(hand.cards@.to_multiset()) =~= order.to_multiset());
            assert(deck.cards@.to_multiset().add(dealer.cards@.to_multiset()) =~= d2.to_multiset());
            assert(deck.cards@.to_multiset().add(hand.cards@.to_multiset()).add(
                dealer.cards@.to_multiset(),
            ) =~= standard_deck().to_multiset());
        }
        self.deck = deck;
        self.player_hands = vec![hand];
        self.dealer_hand = dealer;
        self.in_game = true;
        self.status = Status::YourTurn;
        GameMessage::sync_hand(self.my_id.clone(), &self.player_hands[0])
    }

    /// Starts a round: a fresh deck is shuffled and dealt from (see `deal`).
    /// Gives the message that shares the player's hand.
    pub fn start_hand(&mut self) -> (m: GameMessage)
        requires
            old(self).wf(),
        ensures
            final(self).wf(),
            exists|order: Seq<Card>|
                #![trigger order.to_multiset()]
                order.to_multiset() == standard_deck().to_multiset() && dealt_from(
                    old(self)@,
                    final(self)@,
                    order,
                ),
            shares_hand(m, final(self)@.my_id, final(self)@.player_hands[0].cards@),
    {
        let mut deck = Deck::new();
        deck.shuffle();
        let ghost order = deck.cards@;
        let m = self.deal(deck);
        assert(order.to_multiset() == standard_deck().to_multiset() && dealt_from(
            old(self)@,
            self@,
            order,
        ));
        m
    }

    /// The PLAY button: starts a round (see `start_hand`) when chips are
    /// staked; with no stake nothing happens.
    pub fn play(&mut self) -> (m: Option<GameMessage>)
        requires
            old(self).wf(),
        ensures
            final(self).wf(),
            old(self)@.current_bet == 0 ==> m is None && final(self)@ == old(self)@,
            old(self)@.current_bet > 0 ==> {
                &&& exists|order: Seq<Card>|
                    #![trigger order.to_multiset()]
                    order.to_multiset() == standard_deck().to_multiset() && dealt_from(
                        old(self)@,
                        final(self)@,
                        order,
                    )
                &&& m matches Some(msg) && shares_hand(
                    msg,
                    final(self)@.my_id,
                    final(self)@.player_hands[0].cards@,
                )
            },
    {
        if self.current_bet > 0 {
            Some(self.start_hand())
        } else {
            None
        }
    }

    /// Pays out the round: each hand is scored against the dealer (see
    /// `payout`), the winnings go to the wallet, the table tells the outcome,
    /// the stake is cleared and the round ends. The winnings must fit in the
    /// wallet.
    fn resolve_winner(&mut self)
        requires
            old(self).cards_ok(),
            old(self)@.balance + round_gain(
                old(self)@.player_hands,
                hand_score(old(self)@.dealer_cards),
            ) <= u32::MAX,
        ensures
            final(self).wf(),
            final(self)@ == settled(old(self)@),
    {
        let d_score = self.dealer_hand.score();
        let ghost hands = self.player_hands@;
        let ghost bet0 = hands[0].bet as int;
        let ghost gain = round_gain(hands, d_score as int);
        proof {
            lemma_one_hand_round(hands, d_score as int);
        }
        let mut total_gain: u32 = 0;
        let mut any_bust = false;
        let n = self.player_hands.len();
        let mut i: usize = 0;
        while i < n
            invariant
                self == old(self),
                old(self).cards_ok(),
                hands == self.player_hands@,
                bet0 == hands[0].bet,
                n == hands.len(),
                n == 1,
                i <= n,
                d_score == hand_score(self.dealer_hand.cards@),
                gain == round_gain(hands, d_score as int),
                gain == payout(hand_score(hands[0].cards@), d_score as int, bet0),
                old(self)@.balance + gain <= u32::MAX,
                total_gain == round_gain(hands.take(i as int), d_score as int),
                any_bust == some_hand_bust(hands.take(i as int)),
                i == 0 ==> total_gain == 0,
            decreases n - i,
        {
            let hand = &self.player_hands[i];
            let p_score = hand.score();
            proof {
                assert(hands.take(i + 1).drop_last() =~= hands.take(i as int));
                assert(hands.take(1) =~= hands);
            }
            if p_score > BLACKJACK {
                any_bust = true;
            } else if d_score > BLACKJACK || p_score > d_score {
                total_gain += hand.bet * 2;
            } else if p_score == d_score {
                total_gain += hand.bet;
            }
            i = i + 1;
        }
        proof {
            assert(hands.take(n as int) =~= hands);
        }
        if total_gain > 0 {
            let mut bets: u32 = 0;
            let mut j: usize = 0;
            while j < n
                invariant
                    self == old(self),
                    hands == self.player_hands@,
                    bet0 == hands[0].bet,
                    n == hands.len(),
                    n == 1,
                    j <= n,
                    bets == total_bets(hands.take(j as int)),
                    j == 0 ==> bets == 0,
                    bets <= bet0,
                decreases n - j,
            {
                proof {
                    assert(hands.take(j + 1).drop_last() =~= hands.take(j as int));
                }
                bets += self.player_hands[j].bet;
                j = j + 1;
            }
            proof {
                assert(hands.take(n as int) =~= hands);
            }
            let net = total_gain - bets;
            self.wallet.add_funds(total_gain);
            self.status = Status::Won { net };
        } else if any_bust {
            self.status = Status::Bust;
        } else {
            self.status = Status::DealerWins;
        }
        self.current_bet = 0;
        self.in_game = false;
    }

    /// The player takes the top card. The hand is then shared with the
    /// others, and when it went over 21 the round is paid out at once (a
    /// bust hand is paid nothing). Gives the message sharing the hand, or
    /// `None` when the deck is empty (and nothing changes).
    pub fn hit(&mut self) -> (m: Option<GameMessage>)
        requires
            old(self).wf(),
            old(self)@.in_game,
        ensures
            final(self).wf(),
            old(self)@.deck.len() == 0 ==> m is None && final(self)@ == old(self)@,
            old(self)@.deck.len() > 0 ==> {
                let cards = old(self)@.player_hands[0].cards@.push(old(self)@.deck.last());
                let dealt = TableView {
                    deck: old(self)@.deck.drop_last(),
                    player_hands: final(self)@.player_hands,
                    ..old(self)@
                };
                &&& final(self)@.player_hands.len() == 1
                &&& final(self)@.player_hands[0].cards@ == cards
                &&& final(self)@.player_hands[0].bet == old(self)@.player_hands[0].bet
                &&& final(self)@.player_hands[0].active == old(self)@.player_hands[0].active
                &&& m matches Some(msg) && shares_hand(msg, old(self)@.my_id, cards)
                &&& hand_score(cards) <= 21 ==> final(self)@ == dealt
                &&& hand_score(cards) > 21 ==> final(self)@ == settled(dealt)
            },
    {
        proof {
            lemma_seat_cards(self@);
            lemma_raw_within_score(self.player_hands@[0].cards@, 21);
        }
        let ghost deck0 = self.deck.cards@;
        let ghost player0 = self.player_hands@[0].cards@;
        match self.deck.draw() {
            Some(c) => {
                let mut hand = self.player_hands.remove(0);
                hand.add_card(c);
                self.player_hands.push(hand);
                proof {
                    assert(deck0[deck0.len() - 1] == c);
                    assert(self.player_hands@[0].cards@ == player0.push(c));
                    assert(player0.push(c).drop_last() =~= player0);
                    lemma_move_top_card(deck0, player0);
                    assert(self.deck.cards@.to_multiset().add(
                        self.player_hands@[0].cards@.to_multiset(),
                    ).add(self.dealer_hand.cards@.to_multiset()) =~= standard_deck().to_multiset());
                }
                let m = GameMessage::sync_hand(self.my_id.clone(), &self.player_hands[0]);
                if self.player_hands[0].score() > BLACKJACK {
                    proof {
                        lemma_one_hand_round(self.player_hands@, hand_score(self@.dealer_cards));
                        lemma_balance_fits(&self.wallet);
                    }
                    self.resolve_winner();
                }
                Some(m)
            },
            None => None,
        }
    }

    /// What the player's hand would be paid if the player stood now: the
    /// dealer's turn is played out on copies of the dealer's hand and the
    /// deck (see `dealer_plays`) and the hand is paid against the result.
    pub fn payout_if_standing(&self) -> (g: u64)
        requires
            self.wf(),
        ensures
            g == round_gain(
                self@.player_hands,
                hand_score(dealer_plays(self@.dealer_cards, self@.deck).0),
            ),
    {
        let mut dealer = Hand::new(0);
        dealer.cards = copy_cards(&self.dealer_hand.cards);
        let mut deck = Deck { cards: copy_cards(&self.deck.cards) };
        let ghost p = self@.player_hands[0].cards@.to_multiset();
        proof {
            assert(deck.cards@.to_multiset().add(dealer.cards@.to_multiset()).add(p)
                =~= standard_deck().to_multiset());
        }
        play_dealer(&mut dealer, &mut deck, Ghost(p));
        let d_score = dealer.score();
        let hand = &self.player_hands[0];
        let p_score = hand.score();
        proof {
            lemma_one_hand_round(self@.player_hands, d_score as int);
        }
        if p_score > BLACKJACK {
            0
        } else if d_score > BLACKJACK || p_score > d_score {
            2 * (hand.bet as u64)
        } else if p_score == d_score {
            hand.bet as u64
        } else {
            0
        }
    }

    /// The player stands: the dealer plays (see `dealer_plays`) and the
    /// round is paid out. The winnings must fit in the wallet.
    pub fn stand(&mut self)
        requires
            old(self).wf(),
            old(self)@.in_game,
            old(self)@.balance + round_gain(
                old(self)@.player_hands,
                hand_score(dealer_plays(old(self)@.dealer_cards, old(self)@.deck).0),
            ) <= u32::MAX,
        ensures
            final(self).wf(),
            final(self)@ == settled(
                TableView {
                    dealer_cards: dealer_plays(old(self)@.dealer_cards, old(self)@.deck).0,
                    deck: dealer_plays(old(self)@.dealer_cards, old(self)@.deck).1,
                    ..old(self)@
                },
            ),
    {
        let ghost p = self@.player_hands[0].cards@.to_multiset();
        proof {
            assert(self.deck.cards@.to_multiset().add(self.dealer_hand.cards@.to_multiset()).add(p)
                =~= standard_deck().to_multiset());
        }
        play_dealer(&mut self.dealer_hand, &mut self.deck, Ghost(p));
        proof {
            assert(self.deck.cards@.to_multiset().add(p).add(
                self.dealer_hand.cards@.to_multiset(),
            ) =~= standard_deck().to_multiset());
        }
        self.resolve_winner();
    }
}

/// The dealer's turn (see `dealer_plays`): while the dealer's score is below
/// 17 and the deck is not empty, the dealer takes the top card. `rest` is
/// what, with the deck and the dealer's hand, makes up one fresh deck.
fn play_dealer(dealer: &mut Hand, deck: &mut Deck, Ghost(rest): Ghost<Multiset<Card>>)
    requires
        old(deck).cards@.to_multiset().add(old(dealer).cards@.to_multiset()).add(rest)
            == standard_deck().to_multiset(),
        raw_total(old(dealer).cards@) <= 255,
    ensures
        (final(dealer).cards@, final(deck).cards@) == dealer_plays(
            old(dealer).cards@,
            old(deck).cards@,
        ),
        final(deck).cards@.to_multiset().add(final(dealer).cards@.to_multiset()).add(rest)
            == standard_deck().to_multiset(),
        raw_total(final(dealer).cards@) <= 255,
        final(dealer).bet == old(dealer).bet,
        final(dealer).active == old(dealer).active,
{
    let ghost played = dealer_plays(dealer.cards@, deck.cards@);
    loop
        invariant
            played == dealer_plays(old(dealer).cards@, old(deck).cards@),
            dealer_plays(dealer.cards@, deck.cards@) == played,
            deck.cards@.to_multiset().add(dealer.cards@.to_multiset()).add(rest)
                == standard_deck().to_multiset(),
            raw_total(dealer.cards@) <= 255,
            dealer.bet == old(dealer).bet,
            dealer.active == old(dealer).active,
        ensures
            (dealer.cards@, deck.cards@) == played,
            deck.cards@.to_multiset().add(dealer.cards@.to_multiset()).add(rest)
                == standard_deck().to_multiset(),
            raw_total(dealer.cards@) <= 255,
            dealer.bet == old(dealer).bet,
            dealer.active == old(dealer).active,
        decreases deck.cards@.len(),
    {
        if dealer.score() >= DEALER_STANDS_AT {
            break;
        }
        let ghost deck0 = deck.cards@;
        let ghost dealer0 = dealer.cards@;
        proof {
            let d = deck0.to_multiset();
            let q = dealer0.to_multiset();
            assert(q.add(d.add(rest)) =~= standard_deck().to_multiset());
            assert(d.add(q.add(rest)) =~= standard_deck().to_multiset());
            lemma_cards_from_one_deck(dealer0, d.add(rest));
            lemma_cards_from_one_deck(deck0, q.add(rest));
            lemma_raw_within_score(dealer0, 16);
        }
        match deck.draw() {
            Some(c) => {
                dealer.add_card(c);
                proof {
                    broadcast use vstd::multiset::group_multiset_axioms;

                    assert(deck0[deck0.len() - 1] == c);
                    assert(dealer0.push(c).drop_last() =~= dealer0);
                    lemma_move_top_card(deck0, dealer0);
                    let moved = deck.cards@.to_multiset().add(dealer.cards@.to_multiset());
                    assert(moved.add(rest) == deck0.to_multiset().add(dealer0.to_multiset()).add(
                        rest,
                    ));
                }
            },
            None => {
                break;
            },
        }
    }
}

/// With a single hand, the round pays that hand's payout, the stakes are its
/// stake, and some hand is bust exactly when it is.
proof fn lemma_one_hand_round(hands: Seq<Hand>, dealer_score: int)
    requires
        hands.len() == 1,
    ensures
        round_gain(hands, dealer_score) == payout(
            hand_score(hands[0].cards@),
            dealer_score,
            hands[0].bet as int,
        ),
        total_bets(hands) == hands[0].bet,
        some_hand_bust(hands) == (hand_score(hands[0].cards@) > 21),
{
    assert(hands.drop_last() =~= Seq::<Hand>::empty());
    assert(round_gain(Seq::<Hand>::empty(), dealer_score) == 0);
    assert(total_bets(Seq::<Hand>::empty()) == 0);
    assert(!some_hand_bust(Seq::<Hand>::empty()));
}

/// What every operation keeps, as a consistent seat shows it: one player
/// hand; the deck and the two hands hold exactly one fresh deck, so no card
/// is lost or duplicated; and during a round the player is not bust, the
/// dealer shows a single card and the player's hand carries the stake.
pub proof fn lemma_consistent_seat(t: &Table)
    requires
        t.wf(),
    ensures
        t@.player_hands.len() == 1,
        cards_conserved(t@),
        t@.deck.len() + t@.player_hands[0].cards@.len() + t@.dealer_cards.len() == 52,
        t@.in_game ==> hand_score(t@.player_hands[0].cards@) <= 21 && t@.dealer_cards.len() <= 1
            && t@.player_hands[0].bet == t@.current_bet,
{
    broadcast use vstd::seq_lib::group_to_multiset_ensures;
    broadcast use vstd::multiset::group_multiset_axioms;

    lemma_standard_deck_complete();
    let v = t@;
    assert(v.deck.len() == v.deck.to_multiset().len());
    assert(v.player_hands[0].cards@.len() == v.player_hands[0].cards@.to_multiset().len());
    assert(v.dealer_cards.len() == v.dealer_cards.to_multiset().len());
    assert(standard_deck().len() == standard_deck().to_multiset().len());
}

impl Table {
    /// This player's identifier.
    pub fn my_id(&self) -> (r: &String)
        ensures
            r@ == self@.my_id,
    {
        &self.my_id
    }

    /// The deck still to be dealt from.
    pub fn deck(&self) -> (r: &Deck)
        ensures
            r.cards@ == self@.deck,
    {
        &self.deck
    }

    /// The player's hands.
    pub fn player_hands(&self) -> (r: &Vec<Hand>)
        ensures
            r@ == self@.player_hands,
    {
        &self.player_hands
    }

    /// The dealer's hand.
    pub fn dealer_hand(&self) -> (r: &Hand)
        ensures
            r.cards@ == self@.dealer_cards,
            r.bet == self@.dealer_bet,
            r.active == self@.dealer_active,
    {
        &self.dealer_hand
    }

    /// The chips in the wallet.
    pub fn balance(&self) -> (r: u32)
        ensures
            r == self@.balance,
    {
        self.wallet.balance()
    }

    /// The chips staked on the coming or current round.
    pub fn current_bet(&self) -> (r: u32)
        ensures
            r == self@.current_bet,
    {
        self.current_bet
    }

    /// What the table tells the player.
    pub fn status(&self) -> (r: Status)
        ensures
            r == self@.status,
    {
        self.status
    }

    /// Whether a round is being played.
    pub fn in_game(&self) -> (r: bool)
        ensures
            r == self@.in_game,
    {
        self.in_game
    }
}

} // verus!
