//! One observation of CPU and network counters, and its line in the
//! recorded series: `elapsed_ms, pid or global, cpu, [name, rx, tx]...`,
//! fields separated by `", "`.
use vstd::prelude::*;
use vstd::string::StringExecFns;

verus! {

/// Counters of one network interface, as the OS reports them.
#[derive(Clone, Debug)]
pub struct NetworkStatInfo {
    pub name: String,
    /// Bytes received.
    pub rx: u64,
    /// Bytes transmitted.
    pub tx: u64,
}

impl NetworkStatInfo {
    pub fn new(name: String, rx: u64, tx: u64) -> (r: Self)
        ensures
            r.name == name,
            r.rx == rx,
            r.tx == tx,
    {
        Self { name, rx, tx }
    }
}

/// One sample: time since sampling started, the process measured (or none,
/// for the whole host), CPU usage in hundredths of a percent, and the
/// interfaces' counters in the order they were read.
#[derive(Debug)]
pub struct StatSample {
    pub elapsed_ms: u64,
    pub pid: Option<u32>,
    pub cpu_centi: u32,
    pub net: Vec<NetworkStatInfo>,
}

/// The character of decimal digit `d`.
pub open spec fn digit_char(d: nat) -> char {
    if d == 0 {
        '0'
    } else if d == 1 {
        '1'
    } else if d == 2 {
        '2'
    } else if d == 3 {
        '3'
    } else if d == 4 {
        '4'
    } else if d == 5 {
        '5'
    } else if d == 6 {
        '6'
    } else if d == 7 {
        '7'
    } else if d == 8 {
        '8'
    } else {
        '9'
    }
}

/// `n` in decimal, without leading zeros.
pub open spec fn decimal(n: nat) -> Seq<char>
    decreases n,
{
    if n < 10 {
        seq![digit_char(n)]
    } else {
        decimal(n / 10).push(digit_char(n % 10))
    }
}

/// A CPU usage in hundredths of a percent, written as a percentage with two
/// decimals.
pub open spec fn cpu_text(c: nat) -> Seq<char> {
    decimal(c / 100) + seq!['.', digit_char((c % 100) / 10), digit_char(c % 10)]
}

/// The field separator.
pub open spec fn sep() -> Seq<char> {
    seq![',', ' ']
}

/// The subject field: the process id, or `global` for the whole host.
pub open spec fn subject_text(pid: Option<u32>) -> Seq<char> {
    match pid {
        Some(p) => decimal(p as nat),
        None => seq!['g', 'l', 'o', 'b', 'a', 'l'],
    }
}

/// The fields of the interfaces, each preceded by a separator.
pub open spec fn net_text(net: Seq<NetworkStatInfo>) -> Seq<char>
    decreases net.len(),
{
    if net.len() == 0 {
        Seq::empty()
    } else {
        let n = net.last();
        net_text(net.drop_last()) + sep() + n.name@ + sep() + decimal(n.rx as nat) + sep() + decimal(
            n.tx as nat,
        )
    }
}

/// The line of a sample in the recorded series.
pub open spec fn line_of(s: StatSample) -> Seq<char> {
    decimal(s.elapsed_ms as nat) + sep() + subject_text(s.pid) + sep() + cpu_text(s.cpu_centi as nat)
        + net_text(s.net@)
}

/// The legend line of the recorded series.
pub fn legend_line() -> (r: String)
    ensures
        r@ == "elapsed_ms, pid, cpu, [[net, rx, tx], ...]"@,
{
    String::from_str("elapsed_ms, pid, cpu, [[net, rx, tx], ...]")
}

/// Relies on String::push: appends one character at the end.
#[verifier::external_body]
fn push_char(s: &mut String, c: char)
    ensures
        final(s)@ == old(s)@.push(c),
{
    s.push(c);
}

fn digit(d: u64) -> (c: char)
    requires
        d < 10,
    ensures
        c == digit_char(d as nat),
{
    if d == 0 {
        '0'
    } else if d == 1 {
        '1'
    } else if d == 2 {
        '2'
    } else if d == 3 {
        '3'
    } else if d == 4 {
        '4'
    } else if d == 5 {
        '5'
    } else if d == 6 {
        '6'
    } else if d == 7 {
        '7'
    } else if d == 8 {
        '8'
    } else {
        '9'
    }
}

/// Appends `n` in decimal.
pub fn push_decimal(s: &mut String, n: u64)
    ensures
        final(s)@ == old(s)@ + decimal(n as nat),
    decreases n,
{
    if n >= 10 {
        push_decimal(s, n / 10);
        push_char(s, digit(n % 10));
        assert(decimal(n as nat) == decimal((n / 10) as nat).push(digit_char((n % 10) as nat)));
        assert(final(s)@ =~= old(s)@ + decimal(n as nat));
    } else {
        push_char(s, digit(n));
        assert(final(s)@ =~= old(s)@ + decimal(n as nat));
    }
}

/// Whether the interface `name` is reported when only `only` is asked for
/// (every interface when `only` is `None`).
pub open spec fn selected(only: Option<String>, name: Seq<char>) -> bool {
    match only {
        Some(n) => n@ == name,
        None => true,
    }
}

/// The readings whose interface is reported, in the order read.
pub open spec fn selected_readings(readings: Seq<NetworkStatInfo>, only: Option<String>) -> Seq<NetworkStatInfo> {
    readings.filter(|r: NetworkStatInfo| selected(only, r.name@))
}

impl StatSample {
    /// Adds to this sample the interface readings that `only` selects, in
    /// the order read.
    pub fn add_interfaces(&mut self, readings: &Vec<NetworkStatInfo>, only: &Option<String>)
        ensures
            final(self).elapsed_ms == old(self).elapsed_ms,
            final(self).pid == old(self).pid,
            final(self).cpu_centi == old(self).cpu_centi,
            final(self).net@ == old(self).net@ + selected_readings(readings@, *only),
    {
        let ghost start = self.net@;
        let mut i: usize = 0;
        assert(readings@.subrange(0, 0) =~= Seq::<NetworkStatInfo>::empty());
        while i < readings.len()
            invariant
                i <= readings@.len(),
                self.elapsed_ms == old(self).elapsed_ms,
                self.pid == old(self).pid,
                self.cpu_centi == old(self).cpu_centi,
                start == old(self).net@,
                self.net@ =~= start + selected_readings(readings@.subrange(0, i as int), *only),
            decreases readings@.len() - i,
        {
            let r = &readings[i];
            let keep = match only {
                Some(n) => n.eq(&r.name),
                None => true,
            };
            proof {
                let p = readings@.subrange(0, i + 1);
                assert(p.drop_last() =~= readings@.subrange(0, i as int));
                assert(p.last() == *r);
                reveal(Seq::filter);
            }
            if keep {
                let copy = NetworkStatInfo { name: r.name.clone(), rx: r.rx, tx: r.tx };
                assert(copy == *r);
                self.net.push(copy);
            }
            i = i + 1;
        }
        assert(readings@.subrange(0, i as int) =~= readings@);
    }

    /// A sample of the whole host with the given CPU usage and no
    /// interfaces.
    pub fn fake(cpu_centi: u32, elapsed_ms: u64) -> (r: Self)
        ensures
            r.elapsed_ms == elapsed_ms,
            r.pid is None,
            r.cpu_centi == cpu_centi,
            r.net@.len() == 0,
    {
        StatSample { elapsed_ms, pid: None, cpu_centi, net: Vec::new() }
    }

    /// A sample of `pid` (or of the host) taken `elapsed_ms` after sampling
    /// started, before any metric has been read.
    pub fn new(pid: Option<u32>, elapsed_ms: u64) -> (r: Self)
        ensures
            r.elapsed_ms == elapsed_ms,
            r.pid == pid,
            r.cpu_centi == 0,
            r.net@.len() == 0,
    {
        StatSample { elapsed_ms, pid, cpu_centi: 0, net: Vec::new() }
    }

    /// Time since sampling started, in milliseconds.
    pub fn ts(&self) -> (r: u64)
        ensures
            r == self.elapsed_ms,
    {
        self.elapsed_ms
    }

    /// The sample's line in the recorded series.
    pub fn to_line(&self) -> (r: String)
        ensures
            r@ == line_of(*self),
    {
        let mut s = String::new();
        push_decimal(&mut s, self.elapsed_ms);
        s.append(", ");
        match self.pid {
            Some(p) => push_decimal(&mut s, p as u64),
            None => s.append("global"),
        }
        s.append(", ");
        push_decimal(&mut s, (self.cpu_centi / 100) as u64);
        push_char(&mut s, '.');
        push_char(&mut s, digit(((self.cpu_centi % 100) / 10) as u64));
        push_char(&mut s, digit((self.cpu_centi % 10) as u64));
        proof {
            reveal_strlit(", ");
            reveal_strlit("global");
        }
        let ghost head = s@;
        assert(head =~= decimal(self.elapsed_ms as nat) + sep() + subject_text(self.pid) + sep()
            + cpu_text(self.cpu_centi as nat));
        let mut i: usize = 0;
        assert(self.net@.subrange(0, 0) =~= Seq::<NetworkStatInfo>::empty());
        while i < self.net.len()
            invariant
                i <= self.net@.len(),
                s@ =~= head + net_text(self.net@.subrange(0, i as int)),
            decreases self.net@.len() - i,
        {
            let n = &self.net[i];
            s.append(", ");
            s.append(n.name.as_str());
            s.append(", ");
            push_decimal(&mut s, n.rx);
            s.append(", ");
            push_decimal(&mut s, n.tx);
            proof {
                reveal_strlit(", ");
                let p = self.net@.subrange(0, i + 1);
                assert(p.drop_last() =~= self.net@.subrange(0, i as int));
                assert(p.last() == *n);
            }
            i = i + 1;
        }
        assert(self.net@.subrange(0, i as int) =~= self.net@);
        s
    }
}

} // verus!
