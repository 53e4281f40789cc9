use ethical::calendar::Calendar;
use ethical::date::CalendarError;
use ethical::ethiopian::EthiopianCalendar;
use ethical::gregorian::GregorianCalendar;

#[test]
fn test_gregorian_jdn() {
    let greg_cal = GregorianCalendar::new(2023, 1, 6).unwrap();
    assert_eq!(greg_cal.jdn(), 2459951);
}

#[test]
fn test_greg_jdn_to_eth_cal() {
    let greg_cal = GregorianCalendar::new(2023, 1, 6).unwrap();
    let eth_cal = EthiopianCalendar::new(&greg_cal);
    let eth_date = eth_cal.jdn_to_date(greg_cal.jdn());
    assert_eq!(eth_date.year(), 2015);
    assert_eq!(eth_date.month(), 4);
    assert_eq!(eth_date.day(), 28);
    assert_eq!(eth_date.day_name().as_str(), "ዐርብ");
    assert_eq!(eth_date.month_name().as_str(), "ታኅሣሥ");
}

#[test]
fn test_gregorian_round_trip() {
    let cases: Vec<(u32, u32, u32)> = vec![
        (2023, 1, 6),
        (2024, 2, 29),
        (1, 1, 1),
        (2000, 2, 29),
        (1900, 2, 28),
        (1999, 12, 31),
        (4000000, 12, 31),
    ];
    for (y, m, d) in cases {
        let cal = GregorianCalendar::new(y, m, d).unwrap();
        let back = cal.jdn_to_date(cal.jdn());
        assert_eq!(back.year(), y);
        assert_eq!(back.month(), m);
        assert_eq!(back.day(), d);
        let direct = cal.today();
        assert_eq!(back.month_name().as_str(), direct.month_name().as_str());
        assert_eq!(back.day_name().as_str(), direct.day_name().as_str());
    }
}

#[test]
fn test_ethiopian_round_trip() {
    let cases: Vec<(u32, u32, u32)> = vec![
        (2015, 4, 28),
        (2011, 13, 6),
        (2012, 13, 5),
        (1, 1, 1),
        (2016, 1, 1),
    ];
    for (y, m, d) in cases {
        let cal = EthiopianCalendar::from_ymd(y, m, d).unwrap();
        let back = cal.jdn_to_date(cal.jdn());
        assert_eq!(back.year(), y);
        assert_eq!(back.month(), m);
        assert_eq!(back.day(), d);
        let direct = cal.today();
        assert_eq!(back.month_name().as_str(), direct.month_name().as_str());
        assert_eq!(back.day_name().as_str(), direct.day_name().as_str());
    }
}

#[test]
fn test_ethiopian_fixture() {
    let eth = EthiopianCalendar::from_ymd(2015, 4, 28).unwrap();
    assert_eq!(eth.jdn(), 2459951);
    let date = eth.jdn_to_date(2459951);
    assert_eq!(date.year(), 2015);
    assert_eq!(date.month(), 4);
    assert_eq!(date.day(), 28);
}

#[test]
fn test_gregorian_from_jdn_fixture() {
    let greg = GregorianCalendar::new(2023, 1, 6).unwrap();
    let date = greg.jdn_to_date(2459951);
    assert_eq!(date.year(), 2023);
    assert_eq!(date.month(), 1);
    assert_eq!(date.day(), 6);
    assert_eq!(date.month_name().as_str(), "January");
    assert_eq!(date.day_name().as_str(), "Friday");
}

#[test]
fn test_gregorian_monotonic() {
    let dates: Vec<(u32, u32, u32)> = vec![
        (1999, 12, 31),
        (2000, 1, 1),
        (2000, 2, 28),
        (2000, 2, 29),
        (2000, 3, 1),
        (2023, 1, 6),
        (2023, 1, 7),
        (2024, 1, 6),
    ];
    let mut last: Option<u32> = None;
    for (y, m, d) in dates {
        let jd = GregorianCalendar::new(y, m, d).unwrap().jdn();
        if let Some(prev) = last {
            assert!(prev < jd);
        }
        last = Some(jd);
    }
}

#[test]
fn test_ethiopian_monotonic() {
    let dates: Vec<(u32, u32, u32)> = vec![
        (2011, 12, 30),
        (2011, 13, 1),
        (2011, 13, 5),
        (2011, 13, 6),
        (2012, 1, 1),
        (2015, 4, 27),
        (2015, 4, 28),
    ];
    let mut last: Option<u32> = None;
    for (y, m, d) in dates {
        let jd = EthiopianCalendar::from_ymd(y, m, d).unwrap().jdn();
        if let Some(prev) = last {
            assert!(prev < jd);
        }
        last = Some(jd);
    }
}

#[test]
fn test_pagume_boundary() {
    // In an Ethiopian leap year Pagume has six days, all distinct from the
    // next New Year's Day.
    let p5 = EthiopianCalendar::from_ymd(2011, 13, 5).unwrap().jdn();
    let p6 = EthiopianCalendar::from_ymd(2011, 13, 6).unwrap().jdn();
    let ny = EthiopianCalendar::from_ymd(2012, 1, 1).unwrap().jdn();
    assert_eq!(p5 + 1, p6);
    assert_eq!(p6 + 1, ny);
    // Outside a leap year the sixth day does not exist and Pagume 5 meets
    // the next year directly.
    assert_eq!(
        EthiopianCalendar::from_ymd(2012, 13, 6).err().unwrap(),
        CalendarError::InvalidDate
    );
    let q5 = EthiopianCalendar::from_ymd(2012, 13, 5).unwrap().jdn();
    let my = EthiopianCalendar::from_ymd(2013, 1, 1).unwrap().jdn();
    assert_eq!(q5 + 1, my);
}

#[test]
fn test_month_name_domain_errors() {
    assert_eq!(
        <EthiopianCalendar as Calendar>::month_name(0),
        Err(CalendarError::OutOfRange)
    );
    assert_eq!(
        <EthiopianCalendar as Calendar>::month_name(14),
        Err(CalendarError::OutOfRange)
    );
    assert_eq!(
        <GregorianCalendar as Calendar>::month_name(13),
        Err(CalendarError::OutOfRange)
    );
    assert_eq!(
        <GregorianCalendar as Calendar>::month_name(0),
        Err(CalendarError::OutOfRange)
    );
}

#[test]
fn test_day_name_domain_errors() {
    assert_eq!(
        <EthiopianCalendar as Calendar>::day_name(0),
        Err(CalendarError::OutOfRange)
    );
    assert_eq!(
        <EthiopianCalendar as Calendar>::day_name(8),
        Err(CalendarError::OutOfRange)
    );
    assert_eq!(
        <GregorianCalendar as Calendar>::day_name(0),
        Err(CalendarError::OutOfRange)
    );
    assert_eq!(
        <GregorianCalendar as Calendar>::day_name(8),
        Err(CalendarError::OutOfRange)
    );
}

#[test]
fn test_name_tables() {
    assert_eq!(
        <GregorianCalendar as Calendar>::month_name(1),
        Ok("January".to_string())
    );
    assert_eq!(
        <GregorianCalendar as Calendar>::month_name(12),
        Ok("December".to_string())
    );
    assert_eq!(
        <GregorianCalendar as Calendar>::month_name(4),
        Ok("April".to_string())
    );
    assert_eq!(
        <GregorianCalendar as Calendar>::day_name(5),
        Ok("Friday".to_string())
    );
    assert_eq!(
        <GregorianCalendar as Calendar>::day_name(1),
        Ok("Monday".to_string())
    );
    assert_eq!(
        <GregorianCalendar as Calendar>::day_name(7),
        Ok("Sunday".to_string())
    );
    assert_eq!(
        <EthiopianCalendar as Calendar>::month_name(13),
        Ok("ጳጉሜን".to_string())
    );
    assert_eq!(
        <EthiopianCalendar as Calendar>::month_name(1),
        Ok("መስከረም".to_string())
    );
    assert_eq!(
        <EthiopianCalendar as Calendar>::day_name(1),
        Ok("ሰኞ".to_string())
    );
}

#[test]
fn test_invalid_gregorian_dates() {
    assert_eq!(
        GregorianCalendar::new(2023, 2, 29).err().unwrap(),
        CalendarError::InvalidDate
    );
    assert_eq!(
        GregorianCalendar::new(2023, 4, 31).err().unwrap(),
        CalendarError::InvalidDate
    );
    assert_eq!(
        GregorianCalendar::new(0, 1, 1).err().unwrap(),
        CalendarError::InvalidDate
    );
    assert_eq!(
        GregorianCalendar::new(2023, 0, 5).err().unwrap(),
        CalendarError::OutOfRange
    );
    assert_eq!(
        GregorianCalendar::new(2023, 13, 5).err().unwrap(),
        CalendarError::OutOfRange
    );
    assert!(GregorianCalendar::new(2024, 2, 29).is_ok());
}

#[test]
fn test_invalid_ethiopian_dates() {
    assert_eq!(
        EthiopianCalendar::from_ymd(2015, 12, 31).err().unwrap(),
        CalendarError::InvalidDate
    );
    assert_eq!(
        EthiopianCalendar::from_ymd(0, 1, 1).err().unwrap(),
        CalendarError::InvalidDate
    );
    assert_eq!(
        EthiopianCalendar::from_ymd(2015, 14, 1).err().unwrap(),
        CalendarError::OutOfRange
    );
    assert_eq!(
        EthiopianCalendar::from_ymd(2015, 0, 1).err().unwrap(),
        CalendarError::OutOfRange
    );
}

#[test]
fn test_today_composes_calendars() {
    let greg = GregorianCalendar::new(2023, 1, 6).unwrap();
    let eth = EthiopianCalendar::new(&greg);
    let today = eth.today();
    assert_eq!(today.year(), 2015);
    assert_eq!(today.month(), 4);
    assert_eq!(today.day(), 28);
    assert_eq!(today.month_name().as_str(), "ታኅሣሥ");
    assert_eq!(today.day_name().as_str(), "ዐርብ");
}
