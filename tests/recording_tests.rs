use perfstat::sample::{legend_line, NetworkStatInfo, StatSample};
use perfstat::sampler::{Sampler, TickAction};

#[test]
fn host_sample_line() {
    let s = StatSample::fake(1234, 2000);
    assert_eq!(s.to_line(), "2000, global, 12.34");
    assert_eq!(s.ts(), 2000);
}

#[test]
fn process_sample_line_with_interfaces() {
    let mut s = StatSample::new(Some(4242), 0);
    s.cpu_centi = 5;
    let readings = vec![
        NetworkStatInfo::new("eth0".to_string(), 100, 200),
        NetworkStatInfo::new("lo".to_string(), 0, 18446744073709551615),
    ];
    s.add_interfaces(&readings, &None);
    assert_eq!(s.to_line(), "0, 4242, 0.05, eth0, 100, 200, lo, 0, 18446744073709551615");
}

#[test]
fn interface_filter_keeps_only_the_named_one() {
    let mut s = StatSample::new(None, 10);
    let readings = vec![
        NetworkStatInfo::new("eth0".to_string(), 1, 2),
        NetworkStatInfo::new("wlan0".to_string(), 3, 4),
        NetworkStatInfo::new("eth0".to_string(), 5, 6),
    ];
    s.add_interfaces(&readings, &Some("eth0".to_string()));
    assert_eq!(s.net.len(), 2);
    assert_eq!(s.net[1].rx, 5);
    assert_eq!(s.to_line(), "10, global, 0.00, eth0, 1, 2, eth0, 5, 6");
    let mut none = StatSample::new(None, 10);
    none.add_interfaces(&readings, &Some("ppp0".to_string()));
    assert!(none.net.is_empty());
}

#[test]
fn legend_names_the_columns() {
    assert_eq!(legend_line(), "elapsed_ms, pid, cpu, [[net, rx, tx], ...]");
}

#[test]
fn loop_sleeps_until_stop_is_seen() {
    let mut sampler = Sampler::new();
    assert_eq!(sampler.after_tick(false), TickAction::Sleep);
    assert_eq!(sampler.after_tick(false), TickAction::Sleep);
    assert!(!sampler.is_finished());
    assert_eq!(sampler.after_tick(true), TickAction::Finish);
    assert!(sampler.is_finished());
    assert_eq!(sampler.ticks(), 3);
}

#[test]
fn stop_before_the_first_check_gives_one_sample() {
    let mut sampler = Sampler::new();
    assert_eq!(sampler.after_tick(true), TickAction::Finish);
    assert_eq!(sampler.ticks(), 1);
}
