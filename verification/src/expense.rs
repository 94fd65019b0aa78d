//! The expense record, billing intervals and the date arithmetic that decides
//! when an expense is next due.
use vstd::prelude::*;

use crate::currency::{find_currency, find_currency_spec, CurrencyInfo};
use crate::date::{
    add_days, add_months, add_months_spec, date_le, date_lt, days_between, lemma_ord_lex, lex_lt,
    max_ord, Date,
};
use crate::text::{eq_ic, eq_ignore_ascii_case, is_digit, push_str, str_eq, trim, trim_seq};

verus! {

/// How often an expense recurs.
#[derive(Clone, Copy, Debug, PartialEq, Eq, Structural)]
pub enum Interval {
    Weekly,
    Monthly,
    Quarterly,
    Yearly,
}

/// How close an expense's next payment is.
#[derive(Clone, Copy, Debug, PartialEq, Eq, Structural)]
pub enum DueStatus {
    Overdue,
    DueSoon,
    Normal,
    Distant,
    Unknown,
}

/// A recurring expense. `amount` holds the decimal literal of the amount as
/// it is stored and shown (`9.99`); `extra` holds the values of columns that
/// the library does not own, by column name, in column order.
#[derive(Clone, Debug)]
pub struct Expense {
    pub id: u64,
    pub name: String,
    pub amount: Option<String>,
    pub currency: Option<String>,
    pub start_date: Option<Date>,
    pub interval: Option<Interval>,
    pub category: Option<String>,
    pub end_date: Option<Date>,
    pub extra: Vec<(String, String)>,
}

/// The mathematical value of an `Expense`: every text field by its characters.
pub struct ExpenseView {
    pub id: u64,
    pub name: Seq<char>,
    pub amount: Option<Seq<char>>,
    pub currency: Option<Seq<char>>,
    pub start_date: Option<Date>,
    pub interval: Option<Interval>,
    pub category: Option<Seq<char>>,
    pub end_date: Option<Date>,
    pub extra: Seq<(Seq<char>, Seq<char>)>,
}

pub open spec fn opt_view(o: Option<String>) -> Option<Seq<char>> {
    match o {
        Some(s) => Some(s@),
        None => None,
    }
}

pub open spec fn pairs_view(v: Seq<(String, String)>) -> Seq<(Seq<char>, Seq<char>)> {
    v.map_values(|p: (String, String)| (p.0@, p.1@))
}

impl View for Expense {
    type V = ExpenseView;

    open spec fn view(&self) -> ExpenseView {
        ExpenseView {
            id: self.id,
            name: self.name@,
            amount: opt_view(self.amount),
            currency: opt_view(self.currency),
            start_date: self.start_date,
            interval: self.interval,
            category: opt_view(self.category),
            end_date: self.end_date,
            extra: pairs_view(self.extra@),
        }
    }
}

pub open spec fn opt_date_valid(d: Option<Date>) -> bool {
    d matches Some(x) ==> x.valid()
}

impl ExpenseView {
    /// Every date of the expense is a valid calendar date.
    pub open spec fn wf(self) -> bool {
        opt_date_valid(self.start_date) && opt_date_valid(self.end_date)
    }
}

impl Interval {
    pub open spec fn name_spec(self) -> Seq<char> {
        match self {
            Interval::Weekly => "weekly"@,
            Interval::Monthly => "monthly"@,
            Interval::Quarterly => "quarterly"@,
            Interval::Yearly => "yearly"@,
        }
    }

    /// Lower-case name, as written in the CSV file and shown to users.
    pub fn name(&self) -> (r: &'static str)
        ensures
            r@ == self.name_spec(),
    {
        match self {
            Interval::Weekly => "weekly",
            Interval::Monthly => "monthly",
            Interval::Quarterly => "quarterly",
            Interval::Yearly => "yearly",
        }
    }

    pub open spec fn short_spec(self) -> Seq<char> {
        match self {
            Interval::Weekly => "wk"@,
            Interval::Monthly => "mo"@,
            Interval::Quarterly => "qtr"@,
            Interval::Yearly => "yr"@,
        }
    }

    /// Abbreviation used after an amount (`/mo`).
    pub fn short(&self) -> (r: &'static str)
        ensures
            r@ == self.short_spec(),
    {
        match self {
            Interval::Weekly => "wk",
            Interval::Monthly => "mo",
            Interval::Quarterly => "qtr",
            Interval::Yearly => "yr",
        }
    }

    /// The interval named exactly `s` (`weekly`, `monthly`, `quarterly`, `yearly`).
    pub fn from_name(s: &str) -> (r: Option<Interval>)
        ensures
            r matches Some(i) ==> i.name_spec() == s@,
            r is None ==> forall|i: Interval| i.name_spec() != s@,
    {
        proof {
            reveal_strlit("weekly");
            reveal_strlit("monthly");
            reveal_strlit("quarterly");
            reveal_strlit("yearly");
        }
        if str_eq(s, "weekly") {
            Some(Interval::Weekly)
        } else if str_eq(s, "monthly") {
            Some(Interval::Monthly)
        } else if str_eq(s, "quarterly") {
            Some(Interval::Quarterly)
        } else if str_eq(s, "yearly") {
            Some(Interval::Yearly)
        } else {
            None
        }
    }

    pub fn is_weekly(&self) -> (r: bool)
        ensures
            r == (*self is Weekly),
    {
        match self {
            Interval::Weekly => true,
            _ => false,
        }
    }

    /// Months between payments of a month-based interval.
    pub open spec fn step(self) -> int {
        match self {
            Interval::Weekly => 0,
            Interval::Monthly => 1,
            Interval::Quarterly => 3,
            Interval::Yearly => 12,
        }
    }

    /// For a weekly expense: whether the next payment on or after `today` is
    /// a date chrono can represent.
    pub open spec fn can_advance(self, first: Date, today: Date) -> bool {
        self is Weekly ==> weekly_next(first, today) <= max_ord()
    }

    /// `r` is the next payment of an expense first paid on `first`, on or after `today`.
    ///
    /// Weekly: `first` itself when it is not before `today`, else the first
    /// day on or after `today` a whole number of weeks away from `first`.
    /// Month-based: the first of the dates `first + j*step` months (day
    /// clamped to the month) that falls on or after `today`; a date past
    /// chrono's range counts as `today`.
    pub open spec fn is_next_payment(self, first: Date, today: Date, r: Date) -> bool {
        if self is Weekly {
            r.valid() && r.ord() == weekly_next(first, today)
        } else {
            exists|j: nat| #[trigger] first_due_at(first, today, self.step(), j, r)
        }
    }

    /// The next payment of an expense first paid on `first`, on or after `today`.
    pub fn next_payment(&self, first: &Date, today: &Date) -> (r: Date)
        requires
            first.valid(),
            today.valid(),
            self.can_advance(*first, *today),
        ensures
            self.is_next_payment(*first, *today, r),
            r.valid(),
            today.ord() <= r.ord(),
            first.ord() <= r.ord(),
    {
        if self.is_weekly() {
            next_weekly(first, today)
        } else {
            advance_months(first, today, self.step_months())
        }
    }

    /// Months between payments of a month-based interval (0 for weekly).
    pub fn step_months(&self) -> (r: u32)
        ensures
            r == self.step(),
    {
        match self {
            Interval::Weekly => 0,
            Interval::Monthly => 1,
            Interval::Quarterly => 3,
            Interval::Yearly => 12,
        }
    }
}

/// Monthly payments fall every month, quarterly ones every three months and
/// yearly ones every twelve: when `today` is after the first payment and no
/// later than the one `k` months on (`k` being 1, 3 or 12), that one is the
/// next payment.
pub proof fn month_based_next_is_one_step_on(i: Interval, k: int, first: Date, today: Date, r: Date)
    requires
        (i is Monthly && k == 1) || (i is Quarterly && k == 3) || (i is Yearly && k == 12),
        add_months_spec(first, k) is Some,
        first.ord() < today.ord() <= add_months_spec(first, k)->Some_0.ord(),
        i.is_next_payment(first, today, r),
    ensures
        r == add_months_spec(first, k)->Some_0,
{
    let j = choose|j: nat| #[trigger] first_due_at(first, today, i.step(), j, r);
    assert(first_due_at(first, today, i.step(), j, r));
    assert(0 * i.step() == 0);
    assert(1 * i.step() == i.step());
    assert(!due_nth(first, today, i.step(), 0));
    if j > 1 {
        assert(!due_nth(first, today, i.step(), 1));
    }
    assert(j == 1);
}

/// A weekly expense's next payment falls a whole number of weeks after its
/// first one, on or after both `today` and the first payment, and less than
/// a week after `today` once the first payment is past; before that, it is
/// the first payment's day.
pub proof fn weekly_next_is_in_step(first: Date, today: Date, r: Date)
    requires
        Interval::Weekly.is_next_payment(first, today, r),
    ensures
        r.ord() >= today.ord(),
        r.ord() >= first.ord(),
        (r.ord() - first.ord()) % 7 == 0,
        first.ord() < today.ord() ==> r.ord() < today.ord() + 7,
        first.ord() >= today.ord() ==> r.ord() == first.ord(),
{
    if first.ord() < today.ord() {
        let m = (first.ord() - today.ord()) % 7;
        assert(0 <= m < 7);
        let q = (first.ord() - today.ord()) / 7;
        assert(first.ord() - today.ord() == 7 * q + m);
        assert(r.ord() - first.ord() == -7 * q);
        assert((-7 * q) % 7 == 0) by (nonlinear_arith);
    }
}

/// A month-based expense whose first payment is on or after `today` next
/// pays on its first payment's day.
pub proof fn month_based_next_before_start_is_first(i: Interval, first: Date, today: Date, r: Date)
    requires
        !(i is Weekly),
        first.ord() >= today.ord(),
        i.is_next_payment(first, today, r),
    ensures
        r == first,
{
    let j = choose|j: nat| #[trigger] first_due_at(first, today, i.step(), j, r);
    assert(0 * i.step() == 0);
    assert(due_nth(first, today, i.step(), 0));
    assert(j == 0);
}

proof fn lemma_mod7_flip(x: int, diff: int, since: int)
    requires
        diff == x,
        since == (if diff % 7 < 0 { diff % 7 + 7 } else { diff % 7 }),
    ensures
        since == x % 7,
        since == 0 ==> (-x) % 7 == 0,
        since != 0 ==> (-x) % 7 == 7 - since,
{
}

/// Any interval can advance from a day at least a week before chrono's last date.
pub proof fn lemma_can_advance(i: Interval, first: Date, today: Date)
    requires
        first.valid(),
        today.ord() + 6 <= max_ord(),
    ensures
        i.can_advance(first, today),
{
    crate::date::lemma_ord_range(first);
}

/// The day number of the next weekly payment on or after `today`.
pub open spec fn weekly_next(first: Date, today: Date) -> int {
    if first.ord() >= today.ord() {
        first.ord()
    } else {
        today.ord() + (first.ord() - today.ord()) % 7
    }
}

fn next_weekly(first: &Date, today: &Date) -> (r: Date)
    requires
        first.valid(),
        today.valid(),
        weekly_next(*first, *today) <= max_ord(),
    ensures
        r.valid(),
        r.ord() == weekly_next(*first, *today),
{
    if date_le(today, first) {
        return *first;
    }
    let diff = days_between(first, today);
    let since = diff % 7;
    let since = if since < 0 {
        since + 7
    } else {
        since
    };
    proof {
        lemma_mod7_flip(today.ord() - first.ord(), diff as int, since as int);
    }
    if since == 0 {
        *today
    } else {
        match add_days(today, 7 - since) {
            Some(d) => d,
            None => {
                proof {
                    crate::date::lemma_ord_range(*today);
                }
                assert(false);
                *today
            },
        }
    }
}

/// The date `k` months after `first`; a date beyond chrono's range counts as `today`.
pub open spec fn month_candidate(first: Date, today: Date, k: int) -> Date {
    match add_months_spec(first, k) {
        Some(c) => c,
        None => today,
    }
}

pub open spec fn due_on_or_after(first: Date, today: Date, k: int) -> bool {
    month_candidate(first, today, k).ord() >= today.ord()
}

/// Payment number `i` (the one `i * step` months after `first`) is on or after `today`.
pub open spec fn due_nth(first: Date, today: Date, step: int, i: nat) -> bool {
    due_on_or_after(first, today, i * step)
}

/// `r` is payment number `j`, the first of the payments `0, 1, ...` on or after `today`.
pub open spec fn first_due_at(first: Date, today: Date, step: int, j: nat, r: Date) -> bool {
    &&& r == month_candidate(first, today, j * step)
    &&& due_nth(first, today, step, j)
    &&& forall|i: nat| i < j ==> !#[trigger] due_nth(first, today, step, i)
}

proof fn lemma_candidate_valid(first: Date, today: Date, k: int)
    requires
        first.valid(),
        today.valid(),
        k >= 0,
    ensures
        month_candidate(first, today, k).valid(),
        add_months_spec(first, k) matches Some(c) ==> c.month_index() == first.month_index() + k,
{
}

proof fn lemma_earlier_month_not_due(first: Date, today: Date, k: int)
    requires
        first.valid(),
        today.valid(),
        0 <= k,
        first.month_index() + k < today.month_index(),
    ensures
        !due_on_or_after(first, today, k),
{
    let total = first.month_index() + k;
    let y = total / 12;
    let m = total % 12 + 1;
    assert(y >= first.year);
    assert(y <= today.year);
    let c = month_candidate(first, today, k);
    assert(add_months_spec(first, k) is Some);
    assert(c.month_index() == total);
    assert(lex_lt(c, today));
    lemma_ord_lex(c, today);
}

proof fn lemma_later_month_due(first: Date, today: Date, k: int)
    requires
        first.valid(),
        today.valid(),
        0 <= k,
        first.month_index() + k > today.month_index(),
    ensures
        due_on_or_after(first, today, k),
{
    let c = month_candidate(first, today, k);
    lemma_candidate_valid(first, today, k);
    if add_months_spec(first, k) is Some {
        assert(lex_lt(today, c));
        lemma_ord_lex(today, c);
    }
}

fn advance_months(first: &Date, today: &Date, step: u32) -> (r: Date)
    requires
        first.valid(),
        today.valid(),
        step == 1 || step == 3 || step == 12,
    ensures
        r.valid(),
        today.ord() <= r.ord(),
        first.ord() <= r.ord(),
        exists|j: nat| #[trigger] first_due_at(*first, *today, step as int, j, r),
{
    let diff: i32 = (today.year - first.year) * 12 + (today.month as i32 - first.month as i32);
    let dpos: u32 = if diff < 0 {
        0
    } else {
        diff as u32
    };
    let mut k: u32 = (dpos / step) * step;
    let ghost mut j: nat = (dpos / step) as nat;
    proof {
        assert forall|i: nat| i < j implies !#[trigger] due_nth(*first, *today, step as int, i) by {
            assert(i * step < j * step) by (nonlinear_arith)
                requires
                    i < j,
                    step > 0,
            ;
            lemma_earlier_month_not_due(*first, *today, i * step);
        }
        assert(j * step == k);
    }
    loop
        invariant
            first.valid(),
            today.valid(),
            step == 1 || step == 3 || step == 12,
            diff == today.month_index() - first.month_index(),
            dpos == if diff < 0 {
                0
            } else {
                diff
            },
            k == j * step,
            k <= dpos + step,
            forall|i: nat| i < j ==> !#[trigger] due_nth(*first, *today, step as int, i),
        decreases dpos + step - k,
    {
        let candidate = match add_months(first, k) {
            Some(c) => c,
            None => *today,
        };
        proof {
            lemma_candidate_valid(*first, *today, k as int);
        }
        if date_le(today, &candidate) {
            assert(first_due_at(*first, *today, step as int, j, candidate));
            proof {
                if j > 0 {
                    assert(!due_nth(*first, *today, step as int, 0));
                    assert(0 * step == 0);
                }
            }
            return candidate;
        }
        proof {
            if k > dpos {
                lemma_later_month_due(*first, *today, k as int);
            }
            assert((j + 1) * step == j * step + step) by (nonlinear_arith);
            assert forall|i: nat| i < j + 1 implies !#[trigger] due_nth(*first, *today, step as int, i) by {
                if i < j {
                } else {
                    assert(i == j);
                }
            }
            j = j + 1;
        }
        k = k + step;
    }
}

/// The next payment that `is_next_payment` describes (there is one only).
pub open spec fn next_payment_spec(i: Interval, first: Date, today: Date) -> Date {
    choose|d: Date| i.is_next_payment(first, today, d) && d.valid()
}

/// At most one date is the next payment.
pub proof fn lemma_next_payment_unique(i: Interval, first: Date, today: Date, d1: Date, d2: Date)
    requires
        i.is_next_payment(first, today, d1),
        d1.valid(),
        i.is_next_payment(first, today, d2),
        d2.valid(),
    ensures
        d1 == d2,
{
    if i is Weekly {
        lemma_ord_lex(d1, d2);
    } else {
        let j1 = choose|j: nat| #[trigger] first_due_at(first, today, i.step(), j, d1);
        let j2 = choose|j: nat| #[trigger] first_due_at(first, today, i.step(), j, d2);
        if j1 < j2 {
            assert(!due_nth(first, today, i.step(), j1));
        } else if j2 < j1 {
            assert(!due_nth(first, today, i.step(), j2));
        }
    }
}

/// Any next payment is the one `next_payment_spec` picks.
pub proof fn lemma_next_payment_is_spec(i: Interval, first: Date, today: Date, d: Date)
    requires
        i.is_next_payment(first, today, d),
        d.valid(),
    ensures
        next_payment_spec(i, first, today) == d,
{
    let c = next_payment_spec(i, first, today);
    lemma_next_payment_unique(i, first, today, c, d);
}

/// The next payment on or after `today` is also the next payment on or after
/// any later day up to it: no payment falls in between.
pub proof fn lemma_next_payment_until(i: Interval, first: Date, today: Date, d: Date, y: Date)
    requires
        first.valid(),
        today.valid(),
        y.valid(),
        i.is_next_payment(first, today, d),
        d.valid(),
        today.ord() <= y.ord() <= d.ord(),
    ensures
        i.is_next_payment(first, y, d),
{
    if i is Weekly && first.ord() >= today.ord() {
    } else if i is Weekly {
        let r = d.ord() - today.ord();
        let q = (first.ord() - today.ord()) / 7;
        assert(first.ord() - today.ord() == 7 * q + r);
        assert(first.ord() - y.ord() == 7 * q + (d.ord() - y.ord()));
        assert((first.ord() - y.ord()) % 7 == d.ord() - y.ord()) by {
            vstd::arithmetic::div_mod::lemma_fundamental_div_mod_converse(
                first.ord() - y.ord(), 7, q, d.ord() - y.ord());
        }
    } else {
        let s = i.step();
        let j = choose|j: nat| #[trigger] first_due_at(first, today, s, j, d);
        if add_months_spec(first, j * s) is None {
            lemma_ord_lex(y, today);
            lemma_ord_lex(today, y);
        }
        assert forall|k: nat| k < j implies !#[trigger] due_nth(first, y, s, k) by {
            assert(!due_nth(first, today, s, k));
        }
        assert(first_due_at(first, y, s, j, d));
    }
}

pub open spec fn opt_sub(a: Option<Date>, b: Date) -> Option<int> {
    match a {
        Some(x) => Some(x.ord() - b.ord()),
        None => None,
    }
}

impl Expense {
    /// The dates of the expense are valid and, for a weekly expense, its next
    /// payment after `today` can be represented.
    pub open spec fn can_schedule(self, today: Date) -> bool {
        &&& self@.wf()
        &&& today.valid()
        &&& (self.start_date matches Some(f) && self.interval matches Some(i) ==> i.can_advance(
            f,
            today,
        ))
    }

    /// The next payment on or after `today`, when the expense has a start date and an interval.
    pub fn next_payment(&self, today: &Date) -> (r: Option<Date>)
        requires
            self.can_schedule(*today),
        ensures
            match (self.start_date, self.interval) {
                (Some(f), Some(i)) => r matches Some(d) && i.is_next_payment(f, *today, d)
                    && d.valid() && today.ord() <= d.ord(),
                _ => r is None,
            },
    {
        match (&self.start_date, &self.interval) {
            (Some(first), Some(interval)) => Some(interval.next_payment(first, today)),
            _ => None,
        }
    }

    /// Days from `today` to the next payment.
    pub fn days_until_next(&self, today: &Date) -> (r: Option<i64>)
        requires
            self.can_schedule(*today),
        ensures
            match (self.start_date, self.interval) {
                (Some(f), Some(i)) => r matches Some(n) && n >= 0 && exists|d: Date|
                    i.is_next_payment(f, *today, d) && d.valid() && n == d.ord() - today.ord(),
                _ => r is None,
            },
    {
        match self.next_payment(today) {
            Some(d) => Some(days_between(today, &d)),
            None => None,
        }
    }

    /// Days from `today` to the end date; negative once the end date has passed.
    pub fn days_until_end(&self, today: &Date) -> (r: Option<i64>)
        requires
            self@.wf(),
            today.valid(),
        ensures
            match r {
                Some(n) => opt_sub(self.end_date, *today) == Some(n as int),
                None => self.end_date is None,
            },
    {
        match &self.end_date {
            Some(e) => Some(days_between(today, e)),
            None => None,
        }
    }

    pub open spec fn is_ended_spec(self, today: Date) -> bool {
        self.end_date matches Some(e) && e.ord() < today.ord()
    }

    /// The expense has an end date strictly before `today`.
    pub fn is_ended(&self, today: &Date) -> (r: bool)
        requires
            self@.wf(),
            today.valid(),
        ensures
            r == self.is_ended_spec(*today),
    {
        match self.days_until_end(today) {
            Some(d) => d < 0,
            None => false,
        }
    }

    /// How close the next payment is: overdue (due today), due within a week,
    /// more than 60 days away, in between, or unknown without a schedule.
    pub fn due_status(&self, today: &Date) -> (r: DueStatus)
        requires
            self.can_schedule(*today),
        ensures
            match (self.start_date, self.interval) {
                (Some(f), Some(i)) => exists|d: Date|
                    #![trigger i.is_next_payment(f, *today, d)]
                    i.is_next_payment(f, *today, d) && d.valid() && r == status_for_days(
                        d.ord() - today.ord(),
                    ),
                _ => r == DueStatus::Unknown,
            },
    {
        match self.days_until_next(today) {
            Some(d) => {
                if d <= 0 {
                    DueStatus::Overdue
                } else if d <= 7 {
                    DueStatus::DueSoon
                } else if d > 60 {
                    DueStatus::Distant
                } else {
                    DueStatus::Normal
                }
            },
            None => DueStatus::Unknown,
        }
    }

    /// A one-line description: the name, then the formatted amount and the
    /// interval name when present (`Netflix: $9.99, monthly`).
    pub fn summary(&self, formatted_amount: Option<&str>) -> (r: String)
        ensures
            r@ == summary_spec(self.name@, opt_str_view(formatted_amount), self.interval),
    {
        let mut r = String::new();
        push_str(&mut r, self.name.as_str());
        match (formatted_amount, &self.interval) {
            (None, None) => {},
            (Some(a), None) => {
                push_str(&mut r, ": ");
                push_str(&mut r, a);
            },
            (None, Some(i)) => {
                push_str(&mut r, ": ");
                push_str(&mut r, i.name());
            },
            (Some(a), Some(i)) => {
                push_str(&mut r, ": ");
                push_str(&mut r, a);
                push_str(&mut r, ", ");
                push_str(&mut r, i.name());
            },
        }
        r
    }

    /// An expense with only a name; id 0 and every other field unset.
    pub fn named(name: &str) -> (r: Expense)
        ensures
            r@.name == name@,
            r.id == 0,
            r.amount is None && r.currency is None && r.start_date is None && r.interval is None,
            r.category is None && r.end_date is None && r.extra@.len() == 0,
    {
        Expense {
            id: 0,
            name: string_of(name),
            amount: None,
            currency: None,
            start_date: None,
            interval: None,
            category: None,
            end_date: None,
            extra: Vec::new(),
        }
    }

    /// The expense that a set of command-line fields describes, with an empty name.
    pub fn from_fields(f: &ExpenseFields) -> (r: Expense)
        ensures
            r.id == 0,
            r@.name.len() == 0,
            r@.amount == opt_view(f.amount),
            r@.currency == opt_view(f.currency),
            r.start_date == f.date,
            r.interval == f.interval,
            r@.category == opt_view(f.category),
            r.end_date == f.end_date,
            r.extra@.len() == 0,
    {
        Expense {
            id: 0,
            name: String::new(),
            amount: clone_opt(&f.amount),
            currency: clone_opt(&f.currency),
            start_date: f.date,
            interval: f.interval,
            category: clone_opt(&f.category),
            end_date: f.end_date,
            extra: Vec::new(),
        }
    }

    /// Equality of every field.
    pub fn same_as(&self, other: &Expense) -> (r: bool)
        ensures
            r == (self@ == other@),
    {
        let r = self.id == other.id && str_eq(self.name.as_str(), other.name.as_str())
            && opt_str_eq(&self.amount, &other.amount) && opt_str_eq(
            &self.currency,
            &other.currency,
        ) && self.start_date == other.start_date && self.interval == other.interval
            && opt_str_eq(&self.category, &other.category) && self.end_date == other.end_date
            && pairs_eq(&self.extra, &other.extra);
        proof {
            if r {
                assert(self@.extra =~= other@.extra);
            }
        }
        r
    }
}

pub open spec fn opt_str_view(o: Option<&str>) -> Option<Seq<char>> {
    match o {
        Some(s) => Some(s@),
        None => None,
    }
}

pub open spec fn summary_spec(
    name: Seq<char>,
    amount: Option<Seq<char>>,
    interval: Option<Interval>,
) -> Seq<char> {
    match (amount, interval) {
        (None, None) => name,
        (Some(a), None) => name + ": "@ + a,
        (None, Some(i)) => name + ": "@ + i.name_spec(),
        (Some(a), Some(i)) => name + ": "@ + a + ", "@ + i.name_spec(),
    }
}

pub open spec fn status_for_days(d: int) -> DueStatus {
    if d <= 0 {
        DueStatus::Overdue
    } else if d <= 7 {
        DueStatus::DueSoon
    } else if d > 60 {
        DueStatus::Distant
    } else {
        DueStatus::Normal
    }
}

/// A fresh `String` with the characters of `s`.
pub fn string_of(s: &str) -> (r: String)
    ensures
        r@ == s@,
{
    let mut r = String::new();
    push_str(&mut r, s);
    r
}

pub fn clone_string(s: &String) -> (r: String)
    ensures
        r@ == s@,
{
    string_of(s.as_str())
}

pub fn clone_opt(o: &Option<String>) -> (r: Option<String>)
    ensures
        opt_view(r) == opt_view(*o),
{
    match o {
        Some(s) => Some(clone_string(s)),
        None => None,
    }
}

pub fn opt_str_eq(a: &Option<String>, b: &Option<String>) -> (r: bool)
    ensures
        r == (opt_view(*a) == opt_view(*b)),
{
    match (a, b) {
        (Some(x), Some(y)) => str_eq(x.as_str(), y.as_str()),
        (None, None) => true,
        _ => false,
    }
}

fn pairs_eq(a: &Vec<(String, String)>, b: &Vec<(String, String)>) -> (r: bool)
    ensures
        r == (pairs_view(a@) == pairs_view(b@)),
{
    if a.len() != b.len() {
        assert(pairs_view(a@).len() != pairs_view(b@).len());
        return false;
    }
    let mut i: usize = 0;
    while i < a.len()
        invariant
            a@.len() == b@.len(),
            i <= a@.len(),
            forall|k: int| 0 <= k < i ==> #[trigger] pairs_view(a@)[k] == pairs_view(b@)[k],
        decreases a@.len() - i,
    {
        if !str_eq(a[i].0.as_str(), b[i].0.as_str()) || !str_eq(a[i].1.as_str(), b[i].1.as_str()) {
            assert(pairs_view(a@)[i as int] != pairs_view(b@)[i as int]);
            return false;
        }
        i = i + 1;
    }
    assert(pairs_view(a@) =~= pairs_view(b@));
    true
}

pub fn clone_pairs(v: &Vec<(String, String)>) -> (r: Vec<(String, String)>)
    ensures
        pairs_view(r@) == pairs_view(v@),
{
    let mut r: Vec<(String, String)> = Vec::new();
    let mut i: usize = 0;
    while i < v.len()
        invariant
            i <= v@.len(),
            pairs_view(r@) == pairs_view(v@.take(i as int)),
        decreases v@.len() - i,
    {
        let ghost r0 = r@;
        let a = clone_string(&v[i].0);
        let b = clone_string(&v[i].1);
        r.push((a, b));
        assert(r@ == r0.push((a, b)));
        assert(v@.take(i + 1) =~= v@.take(i as int).push(v@[i as int]));
        assert(pairs_view(r@) =~= pairs_view(r0).push((a@, b@)));
        assert(pairs_view(v@.take(i + 1)) =~= pairs_view(v@.take(i as int)).push((v@[i as int].0@, v@[i as int].1@)));
        i = i + 1;
        assert(pairs_view(r@) =~= pairs_view(v@.take(i as int)));
    }
    assert(v@.take(i as int) =~= v@);
    r
}

/// A field-by-field copy of `e`.
pub fn clone_expense(e: &Expense) -> (r: Expense)
    ensures
        r@ == e@,
{
    Expense {
        id: e.id,
        name: clone_string(&e.name),
        amount: clone_opt(&e.amount),
        currency: clone_opt(&e.currency),
        start_date: e.start_date,
        interval: e.interval,
        category: clone_opt(&e.category),
        end_date: e.end_date,
        extra: clone_pairs(&e.extra),
    }
}

/// The fields of an expense that the command line sets (`--amount`, `--currency`, ...).
#[derive(Clone, Debug)]
pub struct ExpenseFields {
    pub amount: Option<String>,
    pub currency: Option<String>,
    pub date: Option<Date>,
    pub interval: Option<Interval>,
    pub category: Option<String>,
    pub end_date: Option<Date>,
}

impl ExpenseFields {
    /// No field is set.
    pub fn is_empty(&self) -> (r: bool)
        ensures
            r == (self.amount is None && self.currency is None && self.date is None
                && self.interval is None && self.category is None && self.end_date is None),
    {
        self.amount.is_none() && self.currency.is_none() && self.date.is_none()
            && self.interval.is_none() && self.category.is_none() && self.end_date.is_none()
    }
}

/// An expense name from the command line, with its fields.
#[derive(Clone, Debug)]
pub struct ExpenseInput {
    pub name: Option<String>,
    pub fields: ExpenseFields,
}

/// The expense's category equals one of `filters` up to ASCII case; no filter matches everything.
pub open spec fn matches_categories_spec(e: ExpenseView, filters: Seq<Seq<char>>) -> bool {
    filters.len() == 0 || (e.category matches Some(c) && exists|i: int|
        0 <= i < filters.len() && eq_ic(#[trigger] filters[i], c))
}

/// `true` if the expense's category matches any of `filters` (case-insensitive).
/// Empty `filters` matches everything.
pub fn matches_categories(expense: &Expense, filters: &Vec<String>) -> (r: bool)
    ensures
        r == matches_categories_spec(expense@, filters@.map_values(|s: String| s@)),
{
    let ghost fv = filters@.map_values(|s: String| s@);
    if filters.len() == 0 {
        return true;
    }
    if expense.category.is_none() {
        return false;
    }
    {
        {
            let c = expense.category.as_ref().unwrap();
            assert(expense.category is Some);
            assert(*c == expense.category->0);
            assert(c@ == expense.category->0@);
            assert(opt_view(expense.category) == Some(c@));
            assert((*expense)@.category == opt_view(expense.category));
            let mut i: usize = 0;
            while i < filters.len()
                invariant
                    fv == filters@.map_values(|s: String| s@),
                    i <= filters@.len(),
                    filters@.len() > 0,
                    (*expense)@.category == Some(c@),
                    forall|k: int| 0 <= k < i ==> !eq_ic(#[trigger] fv[k], c@),
                decreases filters@.len() - i,
            {
                if eq_ignore_ascii_case(filters[i].as_str(), c.as_str()) {
                    assert(fv[i as int] == filters@[i as int]@);
                    assert(eq_ic(fv[i as int], c@));
                    assert(matches_categories_spec((*expense)@, fv));
                    return true;
                }
                i = i + 1;
            }
            false
        }
    }
}

/// The currency code shared by every expense (up to ASCII case), taken from
/// the first; `None` when some expense has none, they differ, or there are none.
pub open spec fn shared_currency(es: Seq<ExpenseView>) -> Option<Seq<char>> {
    if es.len() > 0 && (forall|i: int| 0 <= i < es.len() ==> (#[trigger] es[i]).currency is Some)
        && (forall|i: int|
        0 <= i < es.len() ==> eq_ic((#[trigger] es[i]).currency->0, es[0].currency->0)) {
        Some(es[0].currency->0)
    } else {
        None
    }
}

pub open spec fn views(es: Seq<Expense>) -> Seq<ExpenseView> {
    es.map_values(|e: Expense| e@)
}

/// Returns the single shared currency if every expense has the same one, otherwise `None`.
pub fn uniform_currency(expenses: &Vec<Expense>) -> (r: Option<CurrencyInfo>)
    ensures
        match shared_currency(views(expenses@)) {
            Some(code) => match r {
                Some(c) => find_currency_spec(code) == Some((c.code@, c.symbol@, c.symbol_first)),
                None => find_currency_spec(code) is None,
            },
            None => r is None,
        },
{
    let ghost vs = views(expenses@);
    if expenses.len() == 0 {
        return None;
    }
    let first: &String = match &expenses[0].currency {
        Some(c) => c,
        None => return None,
    };
    let mut i: usize = 1;
    while i < expenses.len()
        invariant
            vs == views(expenses@),
            expenses@.len() > 0,
            expenses@[0].currency == Some(*first),
            1 <= i <= expenses@.len(),
            forall|k: int| 0 <= k < i ==> (#[trigger] vs[k]).currency is Some,
            forall|k: int| 0 <= k < i ==> eq_ic((#[trigger] vs[k]).currency->0, first@),
        decreases expenses@.len() - i,
    {
        match &expenses[i].currency {
            None => {
                assert(vs[i as int].currency is None);
                return None;
            },
            Some(c) => {
                if !eq_ignore_ascii_case(first.as_str(), c.as_str()) {
                    assert(!eq_ic(vs[i as int].currency->0, vs[0].currency->0));
                    return None;
                }
            },
        }
        i = i + 1;
    }
    find_currency(first.as_str())
}

/// A separator in an amount: `,` or `.`.
pub open spec fn is_sep(c: char) -> bool {
    c == ',' || c == '.'
}

/// `s` without its separators.
pub open spec fn strip_seps(s: Seq<char>) -> Seq<char>
    decreases s.len(),
{
    if s.len() == 0 {
        s
    } else if is_sep(s.last()) {
        strip_seps(s.drop_last())
    } else {
        strip_seps(s.drop_last()).push(s.last())
    }
}

/// Index of the last separator of `s`, or -1 without one.
pub open spec fn last_sep(s: Seq<char>) -> int
    decreases s.len(),
{
    if s.len() == 0 {
        -1
    } else if is_sep(s.last()) {
        s.len() - 1
    } else {
        last_sep(s.drop_last())
    }
}

/// Normalized amount text: the last `,` or `.` is the decimal point iff one
/// or two ASCII digits follow it; every other separator is dropped.
pub open spec fn normalize_amount_spec(s: Seq<char>) -> Seq<char> {
    let pos = last_sep(s);
    if pos < 0 {
        s
    } else {
        let after = s.subrange(pos + 1, s.len() as int);
        if 1 <= after.len() <= 2 && crate::text::all_digits(after) {
            strip_seps(s.subrange(0, pos)) + "."@ + after
        } else {
            strip_seps(s)
        }
    }
}

proof fn lemma_strip_seps_plain(s: Seq<char>)
    requires
        forall|i: int| 0 <= i < s.len() ==> !is_sep(#[trigger] s[i]),
    ensures
        strip_seps(s) == s,
    decreases s.len(),
{
    if s.len() > 0 {
        lemma_strip_seps_plain(s.drop_last());
        assert(s.drop_last().push(s.last()) =~= s);
    }
}

proof fn lemma_last_sep_suffix(a: Seq<char>, f: Seq<char>)
    requires
        a.len() > 0,
        is_sep(a.last()),
        forall|i: int| 0 <= i < f.len() ==> !is_sep(#[trigger] f[i]),
    ensures
        last_sep(a + f) == a.len() - 1,
    decreases f.len(),
{
    if f.len() > 0 {
        lemma_last_sep_suffix(a, f.drop_last());
        assert((a + f).drop_last() =~= a + f.drop_last());
        assert((a + f).last() == f.last());
    } else {
        assert(a + f =~= a);
    }
}

/// An amount written as whole digits, one separator (`,` or `.`) and one or
/// two digits reads as a decimal number with that fraction: `4.5` and `4,5`
/// both become `4.5`, `12,50` becomes `12.50`.
pub proof fn short_fraction_is_decimal(d: Seq<char>, sep: char, f: Seq<char>)
    requires
        forall|i: int| 0 <= i < d.len() ==> is_digit(#[trigger] d[i]),
        is_sep(sep),
        1 <= f.len() <= 2,
        forall|i: int| 0 <= i < f.len() ==> is_digit(#[trigger] f[i]),
    ensures
        normalize_amount_spec(d + seq![sep] + f) == d + "."@ + f,
{
    let a = d + seq![sep];
    let s = a + f;
    assert forall|i: int| 0 <= i < f.len() implies !is_sep(#[trigger] f[i]) by {
        assert(is_digit(f[i]));
    }
    lemma_last_sep_suffix(a, f);
    assert(d + seq![sep] + f == s);
    assert(s.subrange(d.len() + 1int, s.len() as int) =~= f);
    assert(s.subrange(0, d.len() as int) =~= d);
    assert forall|i: int| 0 <= i < d.len() implies !is_sep(#[trigger] d[i]) by {
        assert(is_digit(d[i]));
    }
    lemma_strip_seps_plain(d);
    assert(crate::text::all_digits(f));
}

proof fn lemma_strip_seps_concat(a: Seq<char>, b: Seq<char>)
    ensures
        strip_seps(a + b) == strip_seps(a) + strip_seps(b),
    decreases b.len(),
{
    if b.len() == 0 {
        assert(a + b =~= a);
        assert(strip_seps(a) + strip_seps(b) =~= strip_seps(a));
    } else {
        lemma_strip_seps_concat(a, b.drop_last());
        assert((a + b).drop_last() =~= a + b.drop_last());
        assert((a + b).last() == b.last());
        if is_sep(b.last()) {
        } else {
            assert(strip_seps(a) + strip_seps(b.drop_last()).push(b.last()) =~= (strip_seps(a) + strip_seps(
                b.drop_last(),
            )).push(b.last()));
        }
    }
}

proof fn lemma_strip_seps_has_none(s: Seq<char>)
    ensures
        forall|i: int| 0 <= i < strip_seps(s).len() ==> !is_sep(#[trigger] strip_seps(s)[i]),
    decreases s.len(),
{
    if s.len() > 0 {
        lemma_strip_seps_has_none(s.drop_last());
        let p = strip_seps(s.drop_last());
        if !is_sep(s.last()) {
            assert forall|i: int| 0 <= i < p.push(s.last()).len() implies !is_sep(#[trigger] p.push(s.last())[i]) by {
                if i < p.len() {
                    assert(p.push(s.last())[i] == p[i]);
                }
            }
        }
    }
}

proof fn lemma_last_sep_at(s: Seq<char>)
    ensures
        -1 <= last_sep(s) < s.len(),
        last_sep(s) >= 0 ==> is_sep(s[last_sep(s)]),
        forall|i: int| last_sep(s) < i < s.len() ==> !is_sep(#[trigger] s[i]),
    decreases s.len(),
{
    if s.len() > 0 && !is_sep(s.last()) {
        lemma_last_sep_at(s.drop_last());
        assert forall|i: int| last_sep(s) < i < s.len() implies !is_sep(#[trigger] s[i]) by {
            if i < s.len() - 1 {
                assert(s[i] == s.drop_last()[i]);
            }
        }
    }
}

/// Normalizing an amount keeps every character but the separators, in
/// order, and leaves at most one separator, a `.`.
pub proof fn normalize_keeps_digits(s: Seq<char>)
    ensures
        strip_seps(normalize_amount_spec(s)) == strip_seps(s),
        forall|i: int, j: int|
            0 <= i < normalize_amount_spec(s).len() && 0 <= j < normalize_amount_spec(s).len()
                && is_sep(#[trigger] normalize_amount_spec(s)[i]) && is_sep(#[trigger] normalize_amount_spec(s)[j])
                ==> i == j && normalize_amount_spec(s)[i] == '.',
{
    let pos = last_sep(s);
    let r = normalize_amount_spec(s);
    lemma_last_sep_at(s);
    if pos < 0 {
        assert forall|i: int| 0 <= i < s.len() implies !is_sep(#[trigger] s[i]) by {}
        lemma_strip_seps_plain(s);
    } else {
        let pre = s.subrange(0, pos);
        let after = s.subrange(pos + 1, s.len() as int);
        assert(s =~= pre + seq![s[pos]] + after);
        lemma_strip_seps_concat(pre + seq![s[pos]], after);
        lemma_strip_seps_concat(pre, seq![s[pos]]);
        assert(strip_seps(seq![s[pos]]) =~= Seq::<char>::empty()) by {
            assert(seq![s[pos]].drop_last() =~= Seq::<char>::empty());
            assert(seq![s[pos]].last() == s[pos]);
            assert(strip_seps(Seq::<char>::empty()) =~= Seq::<char>::empty());
        }
        assert forall|i: int| 0 <= i < after.len() implies !is_sep(#[trigger] after[i]) by {
            assert(after[i] == s[pos + 1 + i]);
        }
        lemma_strip_seps_plain(after);
        lemma_strip_seps_has_none(pre);
        lemma_strip_seps_has_none(s);
        lemma_strip_seps_plain(strip_seps(s));
        if 1 <= after.len() <= 2 && crate::text::all_digits(after) {
            let a = strip_seps(pre);
            lemma_strip_seps_plain(a);
            lemma_strip_seps_concat(a + "."@, after);
            lemma_strip_seps_concat(a, "."@);
            assert(strip_seps("."@) =~= Seq::<char>::empty()) by {
                reveal_strlit(".");
                assert("."@.drop_last() =~= Seq::<char>::empty());
                assert("."@.last() == '.');
                assert(strip_seps(Seq::<char>::empty()) =~= Seq::<char>::empty());
            }
            assert(strip_seps(s) =~= a + after);
            reveal_strlit(".");
            assert forall|i: int, j: int|
                0 <= i < r.len() && 0 <= j < r.len() && is_sep(#[trigger] r[i]) && is_sep(#[trigger] r[j])
                    implies i == j && r[i] == '.' by {
                if i < a.len() {
                    assert(r[i] == a[i]);
                } else if i > a.len() {
                    assert(r[i] == after[i - a.len() - 1]);
                }
                if j < a.len() {
                    assert(r[j] == a[j]);
                } else if j > a.len() {
                    assert(r[j] == after[j - a.len() - 1]);
                }
            }
        } else {
            assert(strip_seps(s) =~= strip_seps(pre) + after);
        }
    }
}

fn strip_seps_exec(v: &Vec<char>, to: usize) -> (r: String)
    requires
        to <= v@.len(),
    ensures
        r@ == strip_seps(v@.subrange(0, to as int)),
{
    let mut r = String::new();
    let mut i: usize = 0;
    while i < to
        invariant
            i <= to <= v@.len(),
            r@ == strip_seps(v@.subrange(0, i as int)),
        decreases to - i,
    {
        let c = v[i];
        assert(v@.subrange(0, i + 1).drop_last() =~= v@.subrange(0, i as int));
        if c != ',' && c != '.' {
            crate::text::push_char(&mut r, c);
        }
        i = i + 1;
    }
    r
}

/// Normalize thousands/decimal separators so both `1,234.56` and `1.234,56` read alike.
pub fn normalize_amount(s: &str) -> (r: String)
    ensures
        r@ == normalize_amount_spec(s@),
{
    let v = crate::text::chars_of(s);
    let n = v.len();
    let mut j: usize = n;
    assert(s@.subrange(0, n as int) =~= s@);
    while j > 0 && v[j - 1] != ',' && v[j - 1] != '.'
        invariant
            v@ == s@,
            n == v@.len(),
            j <= n,
            last_sep(s@) == last_sep(s@.subrange(0, j as int)),
        decreases j,
    {
        assert(s@.subrange(0, j as int).drop_last() =~= s@.subrange(0, j - 1));
        j = j - 1;
    }
    assert(s@.subrange(0, n as int) =~= s@);
    if j == 0 {
        assert(s@.subrange(0, 0) =~= Seq::<char>::empty());
        let r = crate::text::string_from_chars(&v);
        return r;
    }
    let pos = j - 1;
    assert(last_sep(s@.subrange(0, j as int)) == pos);
    let after_len = n - pos - 1;
    let mut all_dig = true;
    let mut k: usize = pos + 1;
    while k < n
        invariant
            v@ == s@,
            n == v@.len(),
            pos + 1 <= k <= n,
            all_dig == (forall|t: int| pos + 1 <= t < k ==> crate::text::is_digit(#[trigger] s@[t])),
        decreases n - k,
    {
        if !('0' <= v[k] && v[k] <= '9') {
            all_dig = false;
        }
        k = k + 1;
    }
    let ghost after = s@.subrange(pos + 1, n as int);
    assert(all_dig == crate::text::all_digits(after)) by {
        if all_dig {
            assert forall|t: int| 0 <= t < after.len() implies crate::text::is_digit(
                #[trigger] after[t],
            ) by {
                assert(after[t] == s@[t + pos + 1]);
            }
        } else {
            let t = choose|t: int| pos + 1 <= t < n && !crate::text::is_digit(#[trigger] s@[t]);
            assert(after[t - pos - 1] == s@[t]);
        }
    }
    if 1 <= after_len && after_len <= 2 && all_dig {
        let mut r = strip_seps_exec(&v, pos);
        crate::text::push_char(&mut r, '.');
        let tail = crate::text::string_from_slice(&v, pos + 1, n);
        push_str(&mut r, tail.as_str());
        proof {
            reveal_strlit(".");
            assert(r@ =~= strip_seps(s@.subrange(0, pos as int)) + "."@ + after);
        }
        r
    } else {
        strip_seps_exec(&v, n)
    }
}

/// The text of an amount that `parse_amount` goes on to read as a number:
/// `s` trimmed and normalized. An empty amount is refused.
pub fn prepare_amount(s: &str) -> (r: Result<String, String>)
    ensures
        match r {
            Ok(t) => trim_seq(s@).len() > 0 && t@ == normalize_amount_spec(trim_seq(s@)),
            Err(msg) => trim_seq(s@).len() == 0 && msg@ == "amount cannot be empty"@,
        },
{
    let t = trim(s);
    if t.as_str().unicode_len() == 0 {
        return Err(string_of("amount cannot be empty"));
    }
    Ok(normalize_amount(t.as_str()))
}

} // verus!
